//! Filling the chart and page templates with the statistics.
use vstd::prelude::*;
use crate::model::ResultStat;
use crate::text::{dec_nat, decimal_u64, lemma_prefixed_number_eq, lemma_prefixed_number_ne};

verus! {

/// `s` with every occurrence of `p` replaced by `r`, from left to right,
/// occurrences not overlapping.
pub open spec fn replace_all(s: Seq<char>, p: Seq<char>, r: Seq<char>) -> Seq<char>
    decreases s.len(),
{
    if s.len() == 0 {
        s
    } else if p.len() > 0 && p.is_prefix_of(s) {
        r + replace_all(s.skip(p.len() as int), p, r)
    } else {
        seq![s[0]] + replace_all(s.drop_first(), p, r)
    }
}

/// `s` with its first occurrence of `p`, if there is one, replaced by `r`.
pub open spec fn replace_first(s: Seq<char>, p: Seq<char>, r: Seq<char>) -> Seq<char>
    decreases s.len(),
{
    if p.len() > 0 && p.is_prefix_of(s) {
        r + s.skip(p.len() as int)
    } else if s.len() == 0 {
        s
    } else {
        seq![s[0]] + replace_first(s.drop_first(), p, r)
    }
}

/// An ASCII letter or digit.
pub open spec fn is_ascii_alnum(c: char) -> bool {
    ||| ('0' as int) <= (c as int) <= ('9' as int)
    ||| ('a' as int) <= (c as int) <= ('z' as int)
    ||| ('A' as int) <= (c as int) <= ('Z' as int)
}

/// Replaces every occurrence of `from` in `s` by `to`.
///
/// Calls `str::replace`, which its documentation describes as replacing
/// all matches of the pattern, the matches being those of
/// `str::match_indices`: non-overlapping, from the left. The contract
/// states that for a non-empty pattern.
#[verifier::external_body]
fn replace_all_str(s: &str, from: &str, to: &str) -> (r: String)
    requires
        from@.len() > 0,
    ensures
        r@ == replace_all(s@, from@, to@),
{
    s.replace(from, to)
}

/// Replaces the first occurrence of a literal word in `text`.
///
/// Compiles `pattern` with `regex::Regex::new` and calls `Regex::replace`
/// with `regex::NoExpand(rep)`, as a pair. Its documentation says that
/// `replace` replaces the leftmost-first match and returns the text
/// unchanged when there is none, and that `NoExpand` inserts the
/// replacement as it is. A pattern of ASCII letters and digits matches
/// exactly that word; `new` fails only on an invalid pattern or one above
/// the default size limit, which a word of at most eight such characters is
/// not. The contract states the replacement of the first occurrence.
#[verifier::external_body]
fn regex_replace_first(pattern: &str, text: &str, rep: &str) -> (r: String)
    requires
        0 < pattern@.len() <= 8,
        forall|i: int| 0 <= i < pattern@.len() ==> is_ascii_alnum(#[trigger] pattern@[i]),
    ensures
        r@ == replace_first(text@, pattern@, rep@),
{
    let re = regex::Regex::new(pattern).unwrap();
    re.replace(text, regex::NoExpand(rep)).into_owned()
}

/// The page with the statistics of all commits: the template with
/// `{architect-data}` replaced by `var data = <json>;`.
pub fn html_page(template: &str, data_json: &str) -> (page: String)
    ensures
        page@ == replace_all(template@, "{architect-data}"@, "var data = "@ + data_json@ + ";"@),
{
    let mut script = String::from_str("var data = ");
    script.append(data_json);
    script.append(";");
    proof {
        reveal_strlit("{architect-data}");
    }
    replace_all_str(template, "{architect-data}", script.as_str())
}

/// The words of the chart template and what replaces them, in the order in
/// which they are replaced: for each day of the week `i` from 1 (Monday) to
/// 7, `c<i>`, `a<i>` and `d<i>` by its commits, insertions and deletions;
/// then for each quarter of the day `i` from 1 to 4, `cd<i>` by its
/// commits.
pub open spec fn chart_words(total: ResultStat) -> Seq<(Seq<char>, Seq<char>)> {
    Seq::new(
        25,
        |k: int|
            if k < 21 {
                let d = k / 3;
                let m = total.days@[d];
                if k % 3 == 0 {
                    ("c"@ + dec_nat((d + 1) as nat), dec_nat(m.commits as nat))
                } else if k % 3 == 1 {
                    ("a"@ + dec_nat((d + 1) as nat), dec_nat(m.inserts as nat))
                } else {
                    ("d"@ + dec_nat((d + 1) as nat), dec_nat(m.dels as nat))
                }
            } else {
                ("cd"@ + dec_nat((k - 20) as nat), dec_nat(total.daytimes@[k - 21].commits as nat))
            },
    )
}

/// In the words of the chart template, `c<i>`, `a<i>` and `d<i>` stand for
/// the commits, insertions and deletions of day `i` of the week counted
/// from 1 for Monday (`days[i - 1]`), and `cd<i>` for the commits of quarter
/// `i` of the day counted from 1 for the night (`daytimes[i - 1]`): whatever
/// word has such a name is replaced by that value.
pub proof fn law_chart_word_values(total: ResultStat, k: int, i: int)
    requires
        0 <= k < 25,
    ensures
        1 <= i <= 7 && chart_words(total)[k].0 == "c"@ + dec_nat(i as nat) ==> chart_words(total)[k].1 == dec_nat(
            total.days@[i - 1].commits as nat,
        ),
        1 <= i <= 7 && chart_words(total)[k].0 == "a"@ + dec_nat(i as nat) ==> chart_words(total)[k].1 == dec_nat(
            total.days@[i - 1].inserts as nat,
        ),
        1 <= i <= 7 && chart_words(total)[k].0 == "d"@ + dec_nat(i as nat) ==> chart_words(total)[k].1 == dec_nat(
            total.days@[i - 1].dels as nat,
        ),
        1 <= i <= 4 && chart_words(total)[k].0 == "cd"@ + dec_nat(i as nat) ==> chart_words(total)[k].1 == dec_nat(
            total.daytimes@[i - 1].commits as nat,
        ),
{
    reveal_strlit("c");
    reveal_strlit("a");
    reveal_strlit("d");
    reveal_strlit("cd");
    let w = chart_words(total)[k];
    if i >= 1 {
        let ii = i as nat;
        if k < 21 {
            let d = k / 3;
            let n = (d + 1) as nat;
            assert("c"@[0] != "a"@[0] && "c"@[0] != "d"@[0] && "a"@[0] != "d"@[0]);
            let pre = if k % 3 == 0 { "c"@ } else if k % 3 == 1 { "a"@ } else { "d"@ };
            assert(w.0 == pre + dec_nat(n));
            if w.0 == "c"@ + dec_nat(ii) {
                lemma_prefixed_number_eq(pre, n, "c"@, ii);
                assert(k % 3 == 0);
            }
            if w.0 == "a"@ + dec_nat(ii) {
                lemma_prefixed_number_eq(pre, n, "a"@, ii);
                assert(k % 3 == 1);
            }
            if w.0 == "d"@ + dec_nat(ii) {
                lemma_prefixed_number_eq(pre, n, "d"@, ii);
                assert(k % 3 == 2);
            }
            if w.0 == "cd"@ + dec_nat(ii) {
                lemma_prefixed_number_ne(pre, n, "cd"@, ii);
            }
        } else {
            let n = (k - 20) as nat;
            assert(w.0 == "cd"@ + dec_nat(n));
            if w.0 == "c"@ + dec_nat(ii) {
                lemma_prefixed_number_ne("c"@, ii, "cd"@, n);
            }
            if w.0 == "a"@ + dec_nat(ii) {
                lemma_prefixed_number_ne("a"@, ii, "cd"@, n);
            }
            if w.0 == "d"@ + dec_nat(ii) {
                lemma_prefixed_number_ne("d"@, ii, "cd"@, n);
            }
            if w.0 == "cd"@ + dec_nat(ii) {
                lemma_prefixed_number_eq("cd"@, n, "cd"@, ii);
            }
        }
    }
}

/// `s` after replacing, one after the other, the first occurrence of each
/// word by its value.
pub open spec fn replace_each(s: Seq<char>, words: Seq<(Seq<char>, Seq<char>)>) -> Seq<char>
    decreases words.len(),
{
    if words.len() == 0 {
        s
    } else {
        replace_first(replace_each(s, words.drop_last()), words.last().0, words.last().1)
    }
}

/// Replacing the words up to `k + 1` is replacing those up to `k`, then
/// word `k`.
proof fn lemma_replace_each_step(s: Seq<char>, words: Seq<(Seq<char>, Seq<char>)>, k: int)
    requires
        0 <= k < words.len(),
    ensures
        replace_each(s, words.take(k + 1)) == replace_first(replace_each(s, words.take(k)), words[k].0, words[k].1),
{
    assert(words.take(k + 1).drop_last() =~= words.take(k));
    assert(words.take(k + 1).last() == words[k]);
}

/// The digits of a decimal rendering are ASCII digits.
proof fn lemma_dec_nat_digits(n: nat)
    ensures
        forall|i: int| 0 <= i < dec_nat(n).len() ==> ('0' as int) <= (#[trigger] dec_nat(n)[i] as int) <= ('9' as int),
    decreases n,
{
    if n >= 10 {
        lemma_dec_nat_digits(n / 10);
        lemma_digit_char_range((n % 10) as int);
        assert forall|i: int| 0 <= i < dec_nat(n).len() implies ('0' as int) <= (#[trigger] dec_nat(n)[i] as int) <= ('9' as int) by {
            if i < dec_nat(n / 10).len() {
                assert(dec_nat(n)[i] == dec_nat(n / 10)[i]);
            }
        }
    } else {
        lemma_digit_char_range(n as int);
    }
}

proof fn lemma_digit_char_range(d: int)
    ensures
        ('0' as int) <= (crate::text::digit_char(d) as int) <= ('9' as int),
{
}

/// Replaces the first occurrence of `<prefix><i>` by the decimal value.
fn replace_word(text: String, prefix: &str, i: u64, value: u32) -> (r: String)
    requires
        1 <= prefix@.len() <= 2,
        forall|k: int| 0 <= k < prefix@.len() ==> is_ascii_alnum(#[trigger] prefix@[k]),
        1 <= i <= 9,
    ensures
        r@ == replace_first(text@, prefix@ + dec_nat(i as nat), dec_nat(value as nat)),
{
    let mut word = String::from_str(prefix);
    word.append(decimal_u64(i).as_str());
    proof {
        assert(dec_nat(i as nat) == seq![crate::text::digit_char(i as int)]);
        lemma_dec_nat_digits(i as nat);
        assert forall|k: int| 0 <= k < word@.len() implies is_ascii_alnum(#[trigger] word@[k]) by {
            if k >= prefix@.len() {
                assert(word@[k] == dec_nat(i as nat)[k - prefix@.len()]);
            }
        }
    }
    let value_text = decimal_u64(value as u64);
    regex_replace_first(word.as_str(), text.as_str(), value_text.as_str())
}

/// The chart template filled with the statistics of all commits: the first
/// occurrence of each word of `chart_words`, in turn, replaced by its value.
pub fn fill_chart_template(template: &str, total: &ResultStat) -> (text: String)
    ensures
        text@ == replace_each(template@, chart_words(*total)),
{
    proof {
        reveal_strlit("c");
        reveal_strlit("a");
        reveal_strlit("d");
        reveal_strlit("cd");
    }
    let ghost words = chart_words(*total);
    let mut text = String::from_str(template);
    assert(words.take(0) =~= Seq::<(Seq<char>, Seq<char>)>::empty());
    let mut d: usize = 0;
    while d < 7
        invariant
            d <= 7,
            words == chart_words(*total),
            "c"@ == seq!['c'],
            "a"@ == seq!['a'],
            "d"@ == seq!['d'],
            text@ == replace_each(template@, words.take(3 * d)),
        decreases 7 - d,
    {
        let m = total.days[d];
        let i = (d + 1) as u64;
        text = replace_word(text, "c", i, m.commits);
        proof {
            lemma_replace_each_step(template@, words, 3 * d as int);
            assert(words[3 * d as int] == ("c"@ + dec_nat(i as nat), dec_nat(m.commits as nat)));
        }
        text = replace_word(text, "a", i, m.inserts);
        proof {
            lemma_replace_each_step(template@, words, 3 * d + 1);
            assert(words[3 * d + 1] == ("a"@ + dec_nat(i as nat), dec_nat(m.inserts as nat)));
        }
        text = replace_word(text, "d", i, m.dels);
        proof {
            lemma_replace_each_step(template@, words, 3 * d + 2);
            assert(words[3 * d + 2] == ("d"@ + dec_nat(i as nat), dec_nat(m.dels as nat)));
        }
        d = d + 1;
    }
    let mut q: usize = 0;
    while q < 4
        invariant
            q <= 4,
            words == chart_words(*total),
            "cd"@ == seq!['c', 'd'],
            text@ == replace_each(template@, words.take(21 + q)),
        decreases 4 - q,
    {
        let m = total.daytimes[q];
        text = replace_word(text, "cd", (q + 1) as u64, m.commits);
        proof {
            lemma_replace_each_step(template@, words, 21 + q);
        }
        assert(words[21 + q] == ("cd"@ + dec_nat((q + 1) as nat), dec_nat(m.commits as nat)));
        q = q + 1;
    }
    assert(words.take(25) =~= words);
    text
}

} // verus!
