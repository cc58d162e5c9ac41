//! What the views show: the data of the chart, the order of the console
//! listing and the filled templates.
use vstd::prelude::*;
use crate::model::{AllResultStat, LanguageStatSnapshot, MainStat, ResultStat, TopMonthContributer};
use crate::sorting::{key_le, lazysorted, sort_by_key};
use crate::stats::total_key;
use crate::text::{
    dec_int, dec_nat, decimal_i64, decimal_u64, first_occurrences, lemma_prefixed_number_eq, lemma_prefixed_number_ne,
};

verus! {

/// The name of a month (0 = January) as the chart shows it.
pub open spec fn month_name(m: int) -> Seq<char> {
    if m == 0 { "January"@ }
    else if m == 1 { "February"@ }
    else if m == 2 { "March"@ }
    else if m == 3 { "April"@ }
    else if m == 4 { "May"@ }
    else if m == 5 { "June"@ }
    else if m == 6 { "Jule"@ }
    else if m == 7 { "August"@ }
    else if m == 8 { "September"@ }
    else if m == 9 { "October"@ }
    else if m == 10 { "November"@ }
    else { "December"@ }
}

/// The name of a month (0 = January) as the chart shows it.
pub fn month_str(m: u32) -> (s: &'static str)
    requires
        m < 12,
    ensures
        s@ == month_name(m as int),
{
    if m == 0 { "January" }
    else if m == 1 { "February" }
    else if m == 2 { "March" }
    else if m == 3 { "April" }
    else if m == 4 { "May" }
    else if m == 5 { "June" }
    else if m == 6 { "Jule" }
    else if m == 7 { "August" }
    else if m == 8 { "September" }
    else if m == 9 { "October" }
    else if m == 10 { "November" }
    else { "December" }
}

/// The label of a month: `"<year>, <month name>"`.
pub open spec fn month_label(year: int, month: int) -> Seq<char> {
    dec_int(year) + ", "@ + month_name(month)
}

/// The label of a month: `"<year>, <month name>"`.
pub fn format_month(year: i64, month: u32) -> (s: String)
    requires
        month < 12,
    ensures
        s@ == month_label(year as int, month as int),
{
    let mut s = decimal_i64(year);
    s.append(", ");
    s.append(month_str(month));
    s
}

/// The name of a chart property: a prefix and a number from 1.
pub open spec fn property_name(prefix: Seq<char>, i: int) -> Seq<char> {
    prefix + dec_nat(i as nat)
}

/// The chart properties of the statistics of all commits, in the order in
/// which they are set: for each day of the week `i` from 1 (Monday) to 7,
/// `c<i>`, `a<i>` and `d<i>` with its commits, insertions and deletions;
/// then for each quarter of the day `i` from 1 to 4, `cdt<i>` with its
/// commits.
pub open spec fn chart_properties(total: ResultStat, p: Seq<(String, String)>) -> bool {
    &&& p.len() == 25
    &&& forall|d: int| 0 <= d < 7 ==> {
        &&& (#[trigger] p[3 * d]).0@ == property_name("c"@, d + 1)
        &&& p[3 * d].1@ == dec_nat(total.days@[d].commits as nat)
        &&& p[3 * d + 1].0@ == property_name("a"@, d + 1)
        &&& p[3 * d + 1].1@ == dec_nat(total.days@[d].inserts as nat)
        &&& p[3 * d + 2].0@ == property_name("d"@, d + 1)
        &&& p[3 * d + 2].1@ == dec_nat(total.days@[d].dels as nat)
    }
    &&& forall|q: int| 0 <= q < 4 ==> {
        &&& (#[trigger] p[21 + q]).0@ == property_name("cdt"@, q + 1)
        &&& p[21 + q].1@ == dec_nat(total.daytimes@[q].commits as nat)
    }
}

/// Where entry `j` of the chart properties comes from: its prefix, its
/// number and its value.
proof fn lemma_chart_property_entry(total: ResultStat, p: Seq<(String, String)>, j: int)
    requires
        chart_properties(total, p),
        0 <= j < p.len(),
    ensures
        j < 21 ==> {
            let d = j / 3;
            &&& 0 <= d < 7
            &&& j % 3 == 0 ==> p[j].0@ == "c"@ + dec_nat((d + 1) as nat) && p[j].1@ == dec_nat(total.days@[d].commits as nat)
            &&& j % 3 == 1 ==> p[j].0@ == "a"@ + dec_nat((d + 1) as nat) && p[j].1@ == dec_nat(total.days@[d].inserts as nat)
            &&& j % 3 == 2 ==> p[j].0@ == "d"@ + dec_nat((d + 1) as nat) && p[j].1@ == dec_nat(total.days@[d].dels as nat)
        },
        j >= 21 ==> p[j].0@ == "cdt"@ + dec_nat((j - 20) as nat) && p[j].1@ == dec_nat(
            total.daytimes@[j - 21].commits as nat,
        ),
{
    if j < 21 {
        let d = j / 3;
        assert(p[3 * d].0@ == property_name("c"@, d + 1));
        if j % 3 == 0 {
            assert(j == 3 * d);
        } else if j % 3 == 1 {
            assert(j == 3 * d + 1);
        } else {
            assert(j == 3 * d + 2);
        }
    } else {
        let q = j - 21;
        assert(p[21 + q].0@ == property_name("cdt"@, q + 1));
    }
}

/// In the chart properties, `c<i>`, `a<i>` and `d<i>` hold the commits,
/// insertions and deletions of day `i` of the week counted from 1 for
/// Monday (`days[i - 1]`), and `cdt<i>` the commits of quarter `i` of the
/// day counted from 1 for the night (`daytimes[i - 1]`): whatever entry has
/// such a name holds that value.
pub proof fn law_chart_property_values(total: ResultStat, p: Seq<(String, String)>, j: int, i: int)
    requires
        chart_properties(total, p),
        0 <= j < p.len(),
    ensures
        1 <= i <= 7 && p[j].0@ == "c"@ + dec_nat(i as nat) ==> p[j].1@ == dec_nat(total.days@[i - 1].commits as nat),
        1 <= i <= 7 && p[j].0@ == "a"@ + dec_nat(i as nat) ==> p[j].1@ == dec_nat(total.days@[i - 1].inserts as nat),
        1 <= i <= 7 && p[j].0@ == "d"@ + dec_nat(i as nat) ==> p[j].1@ == dec_nat(total.days@[i - 1].dels as nat),
        1 <= i <= 4 && p[j].0@ == "cdt"@ + dec_nat(i as nat) ==> p[j].1@ == dec_nat(
            total.daytimes@[i - 1].commits as nat,
        ),
{
    reveal_strlit("c");
    reveal_strlit("a");
    reveal_strlit("d");
    reveal_strlit("cdt");
    lemma_chart_property_entry(total, p, j);
    if i >= 1 {
        let ii = i as nat;
        if j < 21 {
            let d = j / 3;
            let k = (d + 1) as nat;
            assert("c"@[0] != "a"@[0] && "c"@[0] != "d"@[0] && "a"@[0] != "d"@[0]);
            let pre = if j % 3 == 0 { "c"@ } else if j % 3 == 1 { "a"@ } else { "d"@ };
            assert(p[j].0@ == pre + dec_nat(k));
            if p[j].0@ == "c"@ + dec_nat(ii) {
                lemma_prefixed_number_eq(pre, k, "c"@, ii);
                assert(j % 3 == 0);
            }
            if p[j].0@ == "a"@ + dec_nat(ii) {
                lemma_prefixed_number_eq(pre, k, "a"@, ii);
                assert(j % 3 == 1);
            }
            if p[j].0@ == "d"@ + dec_nat(ii) {
                lemma_prefixed_number_eq(pre, k, "d"@, ii);
                assert(j % 3 == 2);
            }
            if p[j].0@ == "cdt"@ + dec_nat(ii) {
                lemma_prefixed_number_ne(pre, k, "cdt"@, ii);
            }
        } else {
            let k = (j - 20) as nat;
            if p[j].0@ == "c"@ + dec_nat(ii) {
                lemma_prefixed_number_ne("c"@, ii, "cdt"@, k);
            }
            if p[j].0@ == "a"@ + dec_nat(ii) {
                lemma_prefixed_number_ne("a"@, ii, "cdt"@, k);
            }
            if p[j].0@ == "d"@ + dec_nat(ii) {
                lemma_prefixed_number_ne("d"@, ii, "cdt"@, k);
            }
            if p[j].0@ == "cdt"@ + dec_nat(ii) {
                lemma_prefixed_number_eq("cdt"@, k, "cdt"@, ii);
            }
        }
    }
}

fn property(prefix: &str, i: u64, value: u32) -> (r: (String, String))
    ensures
        r.0@ == property_name(prefix@, i as int),
        r.1@ == dec_nat(value as nat),
{
    let mut name = String::from_str(prefix);
    name.append(decimal_u64(i).as_str());
    (name, decimal_u64(value as u64))
}

/// The chart properties of the statistics of all commits.
#[verifier::spinoff_prover]
pub fn chart_property_list(total: &ResultStat) -> (p: Vec<(String, String)>)
    ensures
        chart_properties(*total, p@),
{
    let mut p: Vec<(String, String)> = Vec::new();
    let mut d: usize = 0;
    while d < 7
        invariant
            d <= 7,
            p@.len() == 3 * d,
            forall|x: int| 0 <= x < d ==> {
                &&& (#[trigger] p@[3 * x]).0@ == property_name("c"@, x + 1)
                &&& p@[3 * x].1@ == dec_nat(total.days@[x].commits as nat)
                &&& p@[3 * x + 1].0@ == property_name("a"@, x + 1)
                &&& p@[3 * x + 1].1@ == dec_nat(total.days@[x].inserts as nat)
                &&& p@[3 * x + 2].0@ == property_name("d"@, x + 1)
                &&& p@[3 * x + 2].1@ == dec_nat(total.days@[x].dels as nat)
            },
        decreases 7 - d,
    {
        let item = total.days[d];
        let i = (d + 1) as u64;
        let ghost old_p = p@;
        p.push(property("c", i, item.commits));
        p.push(property("a", i, item.inserts));
        p.push(property("d", i, item.dels));
        proof {
            assert forall|x: int| 0 <= x < d + 1 implies {
                &&& (#[trigger] p@[3 * x]).0@ == property_name("c"@, x + 1)
                &&& p@[3 * x].1@ == dec_nat(total.days@[x].commits as nat)
                &&& p@[3 * x + 1].0@ == property_name("a"@, x + 1)
                &&& p@[3 * x + 1].1@ == dec_nat(total.days@[x].inserts as nat)
                &&& p@[3 * x + 2].0@ == property_name("d"@, x + 1)
                &&& p@[3 * x + 2].1@ == dec_nat(total.days@[x].dels as nat)
            } by {
                if x < d {
                    assert(p@[3 * x] == old_p[3 * x]);
                    assert(p@[3 * x + 1] == old_p[3 * x + 1]);
                    assert(p@[3 * x + 2] == old_p[3 * x + 2]);
                }
            }
        }
        d = d + 1;
    }
    let mut q: usize = 0;
    while q < 4
        invariant
            q <= 4,
            p@.len() == 21 + q,
            forall|x: int| 0 <= x < 7 ==> {
                &&& (#[trigger] p@[3 * x]).0@ == property_name("c"@, x + 1)
                &&& p@[3 * x].1@ == dec_nat(total.days@[x].commits as nat)
                &&& p@[3 * x + 1].0@ == property_name("a"@, x + 1)
                &&& p@[3 * x + 1].1@ == dec_nat(total.days@[x].inserts as nat)
                &&& p@[3 * x + 2].0@ == property_name("d"@, x + 1)
                &&& p@[3 * x + 2].1@ == dec_nat(total.days@[x].dels as nat)
            },
            forall|x: int| 0 <= x < q ==> {
                &&& (#[trigger] p@[21 + x]).0@ == property_name("cdt"@, x + 1)
                &&& p@[21 + x].1@ == dec_nat(total.daytimes@[x].commits as nat)
            },
        decreases 4 - q,
    {
        let item = total.daytimes[q];
        let ghost old_p = p@;
        p.push(property("cdt", (q + 1) as u64, item.commits));
        proof {
            assert forall|x: int| 0 <= x < 7 implies {
                &&& (#[trigger] p@[3 * x]).0@ == property_name("c"@, x + 1)
                &&& p@[3 * x].1@ == dec_nat(total.days@[x].commits as nat)
                &&& p@[3 * x + 1].0@ == property_name("a"@, x + 1)
                &&& p@[3 * x + 1].1@ == dec_nat(total.days@[x].inserts as nat)
                &&& p@[3 * x + 2].0@ == property_name("d"@, x + 1)
                &&& p@[3 * x + 2].1@ == dec_nat(total.days@[x].dels as nat)
            } by {
                assert(p@[3 * x] == old_p[3 * x]);
                assert(p@[3 * x + 1] == old_p[3 * x + 1]);
                assert(p@[3 * x + 2] == old_p[3 * x + 2]);
            }
            assert forall|x: int| 0 <= x < q + 1 implies {
                &&& (#[trigger] p@[21 + x]).0@ == property_name("cdt"@, x + 1)
                &&& p@[21 + x].1@ == dec_nat(total.daytimes@[x].commits as nat)
            } by {
                if x < q {
                    assert(p@[21 + x] == old_p[21 + x]);
                }
            }
        }
        q = q + 1;
    }
    p
}

/// One row of the table of top contributors in the chart.
#[derive(Clone, Debug)]
pub struct ChartRow {
    pub date: String,
    pub user: String,
    pub commits: i32,
    pub adds: i32,
    pub dels: i32,
}

/// The row of a top contributor: the month label, the author's name and
/// the counts, converted to `i32` as `as` does.
pub open spec fn chart_row(t: TopMonthContributer, r: ChartRow) -> bool {
    &&& r.date@ == month_label(t.year as int, t.month as int)
    &&& r.user@ == t.sign.0@
    &&& r.commits == t.stat.commits as i32
    &&& r.adds == t.stat.inserts as i32
    &&& r.dels == t.stat.dels as i32
}

/// A row of the table shows the contributor's name, in the commits column
/// the number of commits, in the adds column the inserted lines and in the
/// dels column the deleted lines, each as `as` converts it to `i32`, and in
/// the date column the year, then the month's name.
pub proof fn law_chart_row_columns(t: TopMonthContributer, r: ChartRow)
    requires
        chart_row(t, r),
    ensures
        r.commits == t.stat.commits as i32,
        r.adds == t.stat.inserts as i32,
        r.dels == t.stat.dels as i32,
        r.user@ == t.sign.0@,
        r.date@ == dec_int(t.year as int) + ", "@ + month_name(t.month as int),
{
}

/// The rows of the table of top contributors.
pub fn chart_rows(top: &[TopMonthContributer]) -> (rows: Vec<ChartRow>)
    requires
        forall|k: int| 0 <= k < top@.len() ==> (#[trigger] top@[k]).month < 12,
    ensures
        rows@.len() == top@.len(),
        forall|k: int| 0 <= k < top@.len() ==> chart_row(#[trigger] top@[k], rows@[k]),
        forall|k: int|
            0 <= k < top@.len() ==> {
                &&& (#[trigger] rows@[k]).commits == top@[k].stat.commits as i32
                &&& rows@[k].adds == top@[k].stat.inserts as i32
                &&& rows@[k].dels == top@[k].stat.dels as i32
                &&& rows@[k].user@ == top@[k].sign.0@
            },
{
    let mut rows: Vec<ChartRow> = Vec::new();
    let mut k: usize = 0;
    while k < top.len()
        invariant
            k <= top@.len(),
            rows@.len() == k,
            forall|x: int| 0 <= x < top@.len() ==> (#[trigger] top@[x]).month < 12,
            forall|x: int| 0 <= x < k ==> chart_row(#[trigger] top@[x], rows@[x]),
        decreases top@.len() - k,
    {
        let t = &top[k];
        rows.push(ChartRow {
            date: format_month(t.year as i64, t.month as u32),
            user: t.sign.0.clone(),
            commits: t.stat.commits as i32,
            adds: t.stat.inserts as i32,
            dels: t.stat.dels as i32,
        });
        k = k + 1;
    }
    rows
}


/// The extensions of a snapshot, in its order.
pub open spec fn snapshot_keys(s: LanguageStatSnapshot) -> Seq<Seq<char>> {
    Seq::new(s.2@.len(), |j: int| s.2@[j].0@)
}

/// The extensions of the first `k` snapshots, one snapshot after the other.
pub open spec fn all_keys(snaps: Seq<LanguageStatSnapshot>, k: int) -> Seq<Seq<char>>
    decreases k,
{
    if k <= 0 {
        Seq::empty()
    } else {
        all_keys(snaps, k - 1) + snapshot_keys(snaps[k - 1])
    }
}

/// Whether some string of `v` is `s`.
pub fn contains_string(v: &Vec<String>, s: &String) -> (r: bool)
    ensures
        r == v@.map_values(|x: String| x@).contains(s@),
{
    let ghost views = v@.map_values(|x: String| x@);
    let mut i: usize = 0;
    while i < v.len()
        invariant
            i <= v@.len(),
            views == v@.map_values(|x: String| x@),
            forall|k: int| 0 <= k < i ==> views[k] != s@,
        decreases v@.len() - i,
    {
        if v[i] == *s {
            assert(views[i as int] == s@);
            return true;
        }
        i = i + 1;
    }
    false
}

/// The extensions of all snapshots, each once, in the order of their first
/// occurrence.
pub fn chart_languages(snaps: &[LanguageStatSnapshot; 5]) -> (langs: Vec<String>)
    ensures
        langs@.map_values(|x: String| x@) == first_occurrences(all_keys(snaps@, 5)),
{
    let mut langs: Vec<String> = Vec::new();
    let mut k: usize = 0;
    while k < 5
        invariant
            k <= 5,
            langs@.map_values(|x: String| x@) == first_occurrences(all_keys(snaps@, k as int)),
        decreases 5 - k,
    {
        let entries = &snaps[k].2;
        let mut j: usize = 0;
        while j < entries.len()
            invariant
                k < 5,
                entries == snaps@[k as int].2,
                j <= entries@.len(),
                langs@.map_values(|x: String| x@) == first_occurrences(
                    all_keys(snaps@, k as int) + snapshot_keys(snaps@[k as int]).take(j as int),
                ),
            decreases entries@.len() - j,
        {
            let ghost before = all_keys(snaps@, k as int) + snapshot_keys(snaps@[k as int]).take(j as int);
            let ghost after = all_keys(snaps@, k as int) + snapshot_keys(snaps@[k as int]).take(j + 1);
            proof {
                assert(after.drop_last() =~= before);
                assert(after.last() == entries@[j as int].0@);
            }
            if !contains_string(&langs, &entries[j].0) {
                langs.push(entries[j].0.clone());
                proof {
                    assert(langs@.map_values(|x: String| x@) =~= first_occurrences(before).push(entries@[j as int].0@));
                }
            }
            j = j + 1;
        }
        proof {
            assert(snapshot_keys(snaps@[k as int]).take(entries@.len() as int) =~= snapshot_keys(snaps@[k as int]));
        }
        k = k + 1;
    }
    langs
}

/// The text that tells apart a repeated label: `"<base> (<s>)"`.
pub open spec fn numbered(base: Seq<char>, s: int) -> Seq<char> {
    base + " ("@ + dec_nat(s as nat) + ")"@
}

/// `x` is the label for `base` after the labels `prev`: `base` itself when
/// it is new, else `base` with the least number from 1 on that gives a new
/// label.
pub open spec fn category_after(prev: Seq<Seq<char>>, base: Seq<char>, x: Seq<char>) -> bool {
    if !prev.contains(base) {
        x == base
    } else {
        exists|s: int|
            s >= 1 && x == numbered(base, s) && !prev.contains(x) && forall|t: int|
                1 <= t < s ==> prev.contains(#[trigger] numbered(base, t))
    }
}

/// The label of a snapshot among the labels before it.
fn category_label(prev: &Vec<String>, base: String) -> (x: String)
    requires
        prev@.len() < u64::MAX,
    ensures
        category_after(prev@.map_values(|v: String| v@), base@, x@),
{
    let ghost views = prev@.map_values(|v: String| v@);
    if !contains_string(prev, &base) {
        return base;
    }
    let mut start: u64 = 1;
    let mut candidate = numbered_label(&base, start);
    while contains_string(prev, &candidate)
        invariant
            views == prev@.map_values(|v: String| v@),
            views.len() == prev@.len(),
            prev@.len() < u64::MAX,
            1 <= start <= views.len() + 1,
            candidate@ == numbered(base@, start as int),
            forall|t: int| 1 <= t < start ==> views.contains(#[trigger] numbered(base@, t)),
        decreases views.len() + 1 - start,
    {
        proof {
            lemma_numbered_pigeonhole(views, base@, start as int);
        }
        start = start + 1;
        candidate = numbered_label(&base, start);
    }
    candidate
}

/// Different numbers give different numbered labels.
proof fn lemma_numbered_injective(base: Seq<char>, a: int, b: int)
    requires
        a >= 0,
        b >= 0,
        numbered(base, a) == numbered(base, b),
    ensures
        a == b,
{
    reveal_strlit(" (");
    reveal_strlit(")");
    let x = numbered(base, a);
    let lo = base.len() + 2;
    assert(x.len() == lo + dec_nat(a as nat).len() + 1);
    assert(x.len() == lo + dec_nat(b as nat).len() + 1);
    assert(x.subrange(lo as int, x.len() - 1) =~= dec_nat(a as nat));
    assert(numbered(base, b).subrange(lo as int, x.len() - 1) =~= dec_nat(b as nat));
    crate::text::lemma_dec_nat_injective(a as nat, b as nat);
}

/// When the numbered labels from 1 to `start` are all among `views`, there
/// are at least `start` labels.
proof fn lemma_numbered_pigeonhole(views: Seq<Seq<char>>, base: Seq<char>, start: int)
    requires
        start >= 1,
        views.contains(numbered(base, start)),
        forall|t: int| 1 <= t < start ==> views.contains(#[trigger] numbered(base, t)),
    ensures
        start <= views.len(),
{
    let x = vstd::set_lib::set_int_range(1, start + 1);
    let f = |t: int| numbered(base, t);
    vstd::set_lib::lemma_int_range(1, start + 1);
    assert(vstd::relations::injective_on(f, x)) by {
        assert forall|a: int, b: int| x.contains(a) && x.contains(b) && #[trigger] f(a) == #[trigger] f(b) implies a == b by {
            lemma_numbered_injective(base, a, b);
        }
    }
    let y = x.map(f);
    vstd::set_lib::lemma_map_size(x, y, f);
    assert(y.subset_of(views.to_set())) by {
        assert forall|v: Seq<char>| y.contains(v) implies views.to_set().contains(v) by {
            let t = choose|t: int| x.contains(t) && f(t) == v;
            if t < start {
                assert(views.contains(numbered(base, t)));
            }
        }
    }
    views.lemma_cardinality_of_set();
    vstd::set_lib::lemma_len_subset(y, views.to_set());
}

/// `"<base> (<s>)"`.
fn numbered_label(base: &String, s: u64) -> (x: String)
    ensures
        x@ == numbered(base@, s as int),
{
    let mut x = base.clone();
    x.append(" (");
    x.append(decimal_u64(s).as_str());
    x.append(")");
    x
}

} // verus!

verus! {

/// `i` is the position of the first entry `TOTAL` of the table.
pub open spec fn is_first_total(t: Seq<(String, ResultStat)>, i: int) -> bool {
    &&& 0 <= i < t.len()
    &&& t[i].0@ == total_key()
    &&& forall|k: int| 0 <= k < i ==> (#[trigger] t[k]).0@ != total_key()
}

/// The position of the first entry `TOTAL` of the table, if there is one.
pub fn find_total(t: &Vec<(String, ResultStat)>) -> (r: Option<usize>)
    ensures
        r matches Some(i) ==> is_first_total(t@, i as int),
        r is None <==> forall|k: int| 0 <= k < t@.len() ==> (#[trigger] t@[k]).0@ != total_key(),
{
    proof {
        reveal_strlit("TOTAL");
    }
    let key = String::from_str("TOTAL");
    let mut i: usize = 0;
    while i < t.len()
        invariant
            i <= t@.len(),
            key@ == total_key(),
            forall|k: int| 0 <= k < i ==> (#[trigger] t@[k]).0@ != total_key(),
        decreases t@.len() - i,
    {
        if t[i].0 == key {
            return Some(i);
        }
        i = i + 1;
    }
    None
}

/// The count of the first entry with the given extension, or 0.
pub open spec fn count_of(e: Seq<(String, u32)>, key: Seq<char>) -> u32
    decreases e.len(),
{
    if e.len() == 0 {
        0
    } else if e[0].0@ == key {
        e[0].1
    } else {
        count_of(e.drop_first(), key)
    }
}

/// The count looked up for a key is the count of the first entry whose key
/// equals it, and 0 when no entry's key equals it: an entry whose key
/// merely starts with the key, or differs from it, is passed over.
pub proof fn law_count_of_exact(e: Seq<(String, u32)>, key: Seq<char>)
    ensures
        (forall|j: int| 0 <= j < e.len() ==> (#[trigger] e[j]).0@ != key) ==> count_of(e, key) == 0,
        forall|j: int|
            0 <= j < e.len() && (#[trigger] e[j]).0@ == key && (forall|k: int| 0 <= k < j ==> e[k].0@ != key)
                ==> count_of(e, key) == e[j].1,
    decreases e.len(),
{
    if e.len() > 0 {
        law_count_of_exact(e.drop_first(), key);
        assert forall|j: int|
            0 <= j < e.len() && (#[trigger] e[j]).0@ == key && (forall|k: int| 0 <= k < j ==> e[k].0@ != key)
                implies count_of(e, key) == e[j].1 by {
            if j > 0 {
                assert(e[0].0@ != key);
                assert(e.drop_first()[j - 1] == e[j]);
                assert forall|k: int| 0 <= k < j - 1 implies e.drop_first()[k].0@ != key by {
                    assert(e.drop_first()[k] == e[k + 1]);
                }
            }
        }
        if forall|j: int| 0 <= j < e.len() ==> (#[trigger] e[j]).0@ != key {
            assert(e[0].0@ != key);
            assert forall|j: int| 0 <= j < e.drop_first().len() implies (#[trigger] e.drop_first()[j]).0@ != key by {
                assert(e.drop_first()[j] == e[j + 1]);
            }
        }
    }
}

/// The count of the first entry with the given extension, or 0.
pub fn lookup_count(e: &Vec<(String, u32)>, key: &String) -> (n: u32)
    ensures
        n == count_of(e@, key@),
        (forall|j: int| 0 <= j < e@.len() ==> (#[trigger] e@[j]).0@ != key@) ==> n == 0,
        forall|j: int|
            0 <= j < e@.len() && (#[trigger] e@[j]).0@ == key@ && (forall|k: int| 0 <= k < j ==> e@[k].0@ != key@)
                ==> n == e@[j].1,
{
    let mut i: usize = 0;
    assert(e@.skip(0) =~= e@);
    while i < e.len()
        invariant
            i <= e@.len(),
            count_of(e@, key@) == count_of(e@.skip(i as int), key@),
        decreases e@.len() - i,
    {
        assert(e@.skip(i as int)[0] == e@[i as int]);
        if e[i].0 == *key {
            proof {
                law_count_of_exact(e@, key@);
            }
            return e[i].1;
        }
        assert(e@.skip(i as int).drop_first() =~= e@.skip(i + 1));
        i = i + 1;
    }
    proof {
        law_count_of_exact(e@, key@);
    }
    0
}

/// The bar of a language: its name and its counts in the snapshots, as
/// `i32` by `as`.
pub open spec fn chart_bar(snaps: Seq<LanguageStatSnapshot>, lang: Seq<char>, b: (String, Vec<i32>)) -> bool {
    &&& b.0@ == lang
    &&& b.1@.len() == snaps.len()
    &&& forall|k: int| 0 <= k < snaps.len() ==> (#[trigger] b.1@[k]) == count_of(snaps[k].2@, lang) as i32
}

/// The bar of one language.
fn language_bar(snaps: &[LanguageStatSnapshot; 5], lang: &String) -> (b: (String, Vec<i32>))
    ensures
        chart_bar(snaps@, lang@, b),
{
    let mut counts: Vec<i32> = Vec::new();
    let mut k: usize = 0;
    while k < 5
        invariant
            k <= 5,
            counts@.len() == k,
            forall|x: int| 0 <= x < k ==> (#[trigger] counts@[x]) == count_of(snaps@[x].2@, lang@) as i32,
        decreases 5 - k,
    {
        let n = lookup_count(&snaps[k].2, lang);
        counts.push(n as i32);
        k = k + 1;
    }
    (lang.clone(), counts)
}

/// The labels of the snapshots: each its month label, told apart from the
/// labels before it by a number.
pub open spec fn chart_categories(snaps: Seq<LanguageStatSnapshot>, c: Seq<Seq<char>>) -> bool {
    &&& c.len() == snaps.len()
    &&& forall|k: int|
        0 <= k < c.len() ==> category_after(
            c.take(k),
            month_label(snaps[k].0 as int, snaps[k].1 as int),
            #[trigger] c[k],
        )
}

/// The character sequences of the strings.
pub open spec fn string_views(v: Seq<String>) -> Seq<Seq<char>> {
    v.map_values(|x: String| x@)
}

/// A label comes after labels that it differs from all of.
proof fn lemma_category_new(prev: Seq<Seq<char>>, base: Seq<char>, x: Seq<char>)
    requires
        category_after(prev, base, x),
    ensures
        !prev.contains(x),
{
}

/// The labels of the snapshots are all different, so that each snapshot
/// has a column of its own.
pub proof fn law_categories_distinct(snaps: Seq<LanguageStatSnapshot>, c: Seq<Seq<char>>)
    requires
        chart_categories(snaps, c),
    ensures
        forall|a: int, b: int| 0 <= a < b < c.len() ==> #[trigger] c[a] != #[trigger] c[b],
{
    assert forall|a: int, b: int| 0 <= a < b < c.len() implies #[trigger] c[a] != #[trigger] c[b] by {
        lemma_category_new(c.take(b), month_label(snaps[b].0 as int, snaps[b].1 as int), c[b]);
        assert(c.take(b)[a] == c[a]);
    }
}

/// The labels of the snapshots.
pub fn chart_category_list(snaps: &[LanguageStatSnapshot; 5]) -> (c: Vec<String>)
    requires
        forall|k: int| 0 <= k < 5 ==> (#[trigger] snaps@[k]).1 < 12,
    ensures
        chart_categories(snaps@, string_views(c@)),
{
    let mut c: Vec<String> = Vec::new();
    let mut k: usize = 0;
    while k < 5
        invariant
            k <= 5,
            forall|x: int| 0 <= x < 5 ==> (#[trigger] snaps@[x]).1 < 12,
            c@.len() == k,
            forall|x: int|
                0 <= x < k ==> category_after(
                    string_views(c@).take(x),
                    month_label(snaps@[x].0 as int, snaps@[x].1 as int),
                    #[trigger] string_views(c@)[x],
                ),
        decreases 5 - k,
    {
        let base = format_month(snaps[k].0 as i64, snaps[k].1);
        let ghost before = string_views(c@);
        let label = category_label(&c, base);
        c.push(label);
        proof {
            let after = string_views(c@);
            assert(after.take(k as int) =~= before);
            assert forall|x: int|
                0 <= x < k + 1 implies category_after(
                    after.take(x),
                    month_label(snaps@[x].0 as int, snaps@[x].1 as int),
                    #[trigger] after[x],
                ) by {
                if x < k {
                    assert(after.take(x) =~= before.take(x));
                    assert(after[x] == before[x]);
                }
            }
        }
        k = k + 1;
    }
    c
}

/// Everything the chart shows.
pub struct ChartData {
    /// The properties of the statistics of all commits.
    pub properties: Vec<(String, String)>,
    /// The table of top contributors.
    pub rows: Vec<ChartRow>,
    /// The labels of the language snapshots.
    pub categories: Vec<String>,
    /// One bar per language: its name and its counts in the snapshots.
    pub bars: Vec<(String, Vec<i32>)>,
}

/// Everything the chart shows of the statistics: the properties of the
/// entry `TOTAL`, a row per top contributor, the labels of the language
/// snapshots and a bar per language, languages in the order of their first
/// occurrence in the snapshots.
pub fn chart_data(gathered: &AllResultStat) -> (d: ChartData)
    requires
        exists|i: int| 0 <= i < gathered.common_stats@.len() && #[trigger] gathered.common_stats@[i].0@ == total_key(),
        forall|k: int| 0 <= k < gathered.top_monthly@.len() ==> (#[trigger] gathered.top_monthly@[k]).month < 12,
        forall|k: int| 0 <= k < 5 ==> (#[trigger] gathered.lang_stats@[k]).1 < 12,
    ensures
        exists|i: int|
            is_first_total(gathered.common_stats@, i) && chart_properties(
                #[trigger] gathered.common_stats@[i].1,
                d.properties@,
            ),
        d.rows@.len() == gathered.top_monthly@.len(),
        forall|k: int|
            0 <= k < gathered.top_monthly@.len() ==> chart_row(#[trigger] gathered.top_monthly@[k], d.rows@[k]),
        chart_categories(gathered.lang_stats@, string_views(d.categories@)),
        d.bars@.len() == first_occurrences(all_keys(gathered.lang_stats@, 5)).len(),
        forall|j: int|
            0 <= j < d.bars@.len() ==> chart_bar(
                gathered.lang_stats@,
                first_occurrences(all_keys(gathered.lang_stats@, 5))[j],
                #[trigger] d.bars@[j],
            ),
{
    let i = match find_total(&gathered.common_stats) {
        Some(i) => i,
        None => {
            proof {
                let w = choose|w: int| 0 <= w < gathered.common_stats@.len() && #[trigger] gathered.common_stats@[w].0@ == total_key();
                assert(gathered.common_stats@[w].0@ != total_key());
            }
            0
        },
    };
    let properties = chart_property_list(&gathered.common_stats[i].1);
    let rows = chart_rows(gathered.top_monthly.as_slice());
    let categories = chart_category_list(&gathered.lang_stats);
    let langs = chart_languages(&gathered.lang_stats);
    let ghost order = first_occurrences(all_keys(gathered.lang_stats@, 5));
    let mut bars: Vec<(String, Vec<i32>)> = Vec::new();
    let mut j: usize = 0;
    while j < langs.len()
        invariant
            langs@.map_values(|x: String| x@) == order,
            j <= langs@.len(),
            bars@.len() == j,
            forall|x: int| 0 <= x < j ==> chart_bar(gathered.lang_stats@, order[x], #[trigger] bars@[x]),
        decreases langs@.len() - j,
    {
        let b = language_bar(&gathered.lang_stats, &langs[j]);
        assert(order[j as int] == langs@[j as int]@);
        bars.push(b);
        j = j + 1;
    }
    ChartData { properties: properties, rows: rows, categories: categories, bars: bars }
}

} // verus!

verus! {

broadcast use vstd::seq_lib::group_to_multiset_ensures;

/// The entries keyed for the listing: fewer commits sort later, and each
/// entry carries its position.
pub open spec fn commit_keys(t: Seq<(String, ResultStat)>) -> Seq<(i64, i64, usize)> {
    Seq::new(t.len(), |i: int| ((-(t[i].1.stat.commits as int)) as i64, 0i64, i as usize))
}

/// The positions that the items carry, in their order.
pub open spec fn positions(s: Seq<(i64, i64, usize)>) -> Seq<usize> {
    Seq::new(s.len(), |i: int| s[i].2)
}

/// The positions of the entries in the order of the console listing: by
/// decreasing number of commits, as `lazysort` orders them.
pub fn order_by_commits(t: &Vec<(String, ResultStat)>) -> (r: Vec<usize>)
    ensures
        r@ == positions(lazysorted(commit_keys(t@))),
        r@.len() == t@.len(),
        forall|p: usize| p < t@.len() ==> #[trigger] r@.contains(p),
        forall|k: int| 0 <= k < r@.len() ==> (#[trigger] r@[k]) < t@.len(),
        forall|a: int, b: int|
            0 <= a < b < r@.len() ==> t@[#[trigger] r@[a] as int].1.stat.commits >= t@[#[trigger] r@[b] as int].1.stat.commits,
{
    let n = t.len();
    let mut items: Vec<(i64, i64, usize)> = Vec::new();
    let mut i: usize = 0;
    while i < n
        invariant
            n == t@.len(),
            i <= n,
            items@ == commit_keys(t@).take(i as int),
        decreases n - i,
    {
        items.push((0i64 - (t[i].1.stat.commits as i64), 0i64, i));
        proof {
            assert(items@ =~= commit_keys(t@).take(i + 1));
        }
        i = i + 1;
    }
    assert(items@ =~= commit_keys(t@));
    let ghost keys = items@;
    let sorted = sort_by_key(items);
    proof {
        vstd::seq_lib::to_multiset_len(sorted@);
        vstd::seq_lib::to_multiset_len(keys);
    }
    let mut r: Vec<usize> = Vec::new();
    let mut j: usize = 0;
    while j < n
        invariant
            n == t@.len(),
            sorted@.len() == n,
            keys == commit_keys(t@),
            sorted@.to_multiset() == keys.to_multiset(),
            j <= n,
            r@ == positions(sorted@).take(j as int),
        decreases n - j,
    {
        r.push(sorted[j].2);
        proof {
            assert(r@ =~= positions(sorted@).take(j + 1));
        }
        j = j + 1;
    }
    proof {
        assert(r@ =~= positions(sorted@));
        assert forall|k: int| 0 <= k < r@.len() implies (#[trigger] r@[k]) < t@.len()
            && sorted@[k] == keys[r@[k] as int] by {
            assert(sorted@.to_multiset().count(sorted@[k]) > 0);
            assert(keys.contains(sorted@[k]));
            let q = choose|q: int| 0 <= q < keys.len() && keys[q] == sorted@[k];
            assert(keys[q].2 == q);
        }
        assert forall|p: usize| p < t@.len() implies #[trigger] r@.contains(p) by {
            assert(keys[p as int].2 == p);
            assert(keys.to_multiset().count(keys[p as int]) > 0);
            assert(sorted@.contains(keys[p as int]));
            let k = choose|k: int| 0 <= k < sorted@.len() && sorted@[k] == keys[p as int];
            assert(r@[k] == p);
        }
        assert forall|a: int, b: int|
            0 <= a < b < r@.len() implies t@[#[trigger] r@[a] as int].1.stat.commits >= t@[#[trigger] r@[b] as int].1.stat.commits by {
            assert(key_le(sorted@[a], sorted@[b]));
            assert(sorted@[a] == keys[r@[a] as int]);
            assert(sorted@[b] == keys[r@[b] as int]);
        }
    }
    r
}

} // verus!
