//! Small text utilities: decimal rendering of integers and the
//! lexicographic order of strings.
use vstd::prelude::*;

verus! {

/// The character of a decimal digit.
pub open spec fn digit_char(d: int) -> char {
    if d == 0 { '0' }
    else if d == 1 { '1' }
    else if d == 2 { '2' }
    else if d == 3 { '3' }
    else if d == 4 { '4' }
    else if d == 5 { '5' }
    else if d == 6 { '6' }
    else if d == 7 { '7' }
    else if d == 8 { '8' }
    else { '9' }
}

/// Decimal rendering of a natural number, without leading zeros.
pub open spec fn dec_nat(n: nat) -> Seq<char>
    decreases n,
{
    if n < 10 {
        seq![digit_char(n as int)]
    } else {
        dec_nat(n / 10).push(digit_char((n % 10) as int))
    }
}

/// Decimal rendering of an integer, with a leading `-` when it is negative.
pub open spec fn dec_int(n: int) -> Seq<char> {
    if n < 0 {
        seq!['-'] + dec_nat((-n) as nat)
    } else {
        dec_nat(n as nat)
    }
}

fn digit_str(d: u64) -> (s: &'static str)
    requires
        d < 10,
    ensures
        s@ == seq![digit_char(d as int)],
{
    proof {
        reveal_strlit("0");
        reveal_strlit("1");
        reveal_strlit("2");
        reveal_strlit("3");
        reveal_strlit("4");
        reveal_strlit("5");
        reveal_strlit("6");
        reveal_strlit("7");
        reveal_strlit("8");
        reveal_strlit("9");
    }
    if d == 0 { "0" }
    else if d == 1 { "1" }
    else if d == 2 { "2" }
    else if d == 3 { "3" }
    else if d == 4 { "4" }
    else if d == 5 { "5" }
    else if d == 6 { "6" }
    else if d == 7 { "7" }
    else if d == 8 { "8" }
    else { "9" }
}

/// Renders an unsigned integer in decimal, as `to_string` does.
pub fn decimal_u64(n: u64) -> (s: String)
    ensures
        s@ == dec_nat(n as nat),
    decreases n,
{
    if n < 10 {
        String::from_str(digit_str(n))
    } else {
        let mut s = decimal_u64(n / 10);
        s.append(digit_str(n % 10));
        s
    }
}

/// Renders a signed integer in decimal, as `to_string` does.
pub fn decimal_i64(n: i64) -> (s: String)
    ensures
        s@ == dec_int(n as int),
{
    if n < 0 {
        let m: u64 = (0i128 - (n as i128)) as u64;
        let digits = decimal_u64(m);
        proof {
            reveal_strlit("-");
        }
        let mut s = String::from_str("-");
        s.append(digits.as_str());
        s
    } else {
        decimal_u64(n as u64)
    }
}

/// A decimal rendering has at least one digit, and a number is below ten
/// to the power of its digit count.
pub proof fn lemma_dec_nat_len(n: nat)
    ensures
        dec_nat(n).len() >= 1,
        n < vstd::arithmetic::power::pow(10, dec_nat(n).len()),
    decreases n,
{
    reveal(vstd::arithmetic::power::pow);
    if n >= 10 {
        lemma_dec_nat_len(n / 10);
        let k = dec_nat(n / 10).len();
        assert(dec_nat(n).len() == k + 1);
        vstd::arithmetic::power::lemma_pow_adds(10, k, 1);
        assert(vstd::arithmetic::power::pow(10, 1) == 10) by {
            vstd::arithmetic::power::lemma_pow1(10);
        }
        assert(n < 10 * vstd::arithmetic::power::pow(10, k)) by (nonlinear_arith)
            requires
                n / 10 < vstd::arithmetic::power::pow(10, k),
                n >= 10,
        ;
    } else {
        vstd::arithmetic::power::lemma_pow1(10);
    }
}

} // verus!

verus! {

/// Lexicographic order of character sequences, comparing characters by
/// their code points: the order of `String`'s `Ord`.
pub open spec fn seq_lt(a: Seq<char>, b: Seq<char>) -> bool
    decreases a.len(),
{
    if a.len() == 0 {
        b.len() > 0
    } else if b.len() == 0 {
        false
    } else if a[0] != b[0] {
        (a[0] as int) < (b[0] as int)
    } else {
        seq_lt(a.drop_first(), b.drop_first())
    }
}

/// `seq_lt` is irreflexive.
pub proof fn lemma_seq_lt_irreflexive(a: Seq<char>)
    ensures
        !seq_lt(a, a),
    decreases a.len(),
{
    if a.len() > 0 {
        lemma_seq_lt_irreflexive(a.drop_first());
    }
}

/// `seq_lt` is transitive.
pub proof fn lemma_seq_lt_transitive(a: Seq<char>, b: Seq<char>, c: Seq<char>)
    requires
        seq_lt(a, b),
        seq_lt(b, c),
    ensures
        seq_lt(a, c),
    decreases a.len(),
{
    if a.len() > 0 && b.len() > 0 && c.len() > 0 {
        if a[0] == b[0] && b[0] == c[0] {
            lemma_seq_lt_transitive(a.drop_first(), b.drop_first(), c.drop_first());
        }
    }
}

/// `seq_lt` is total on distinct sequences.
pub proof fn lemma_seq_lt_total(a: Seq<char>, b: Seq<char>)
    requires
        a != b,
    ensures
        seq_lt(a, b) || seq_lt(b, a),
    decreases a.len(),
{
    if a.len() == 0 && b.len() == 0 {
        assert(a =~= b);
    } else if a.len() > 0 && b.len() > 0 {
        if a[0] == b[0] {
            if a.drop_first() =~= b.drop_first() {
                assert(a =~= seq![a[0]] + a.drop_first());
                assert(b =~= seq![b[0]] + b.drop_first());
            } else {
                lemma_seq_lt_total(a.drop_first(), b.drop_first());
            }
        } else {
            assert((a[0] as int) != (b[0] as int));
        }
    }
}

/// `seq_lt` is asymmetric.
pub proof fn lemma_seq_lt_asymmetric(a: Seq<char>, b: Seq<char>)
    requires
        seq_lt(a, b),
    ensures
        !seq_lt(b, a),
{
    if seq_lt(b, a) {
        lemma_seq_lt_transitive(a, b, a);
        lemma_seq_lt_irreflexive(a);
    }
}

proof fn lemma_seq_lt_skip(a: Seq<char>, b: Seq<char>, i: int)
    requires
        0 <= i < a.len(),
        i < b.len(),
        a[i] == b[i],
    ensures
        seq_lt(a.skip(i), b.skip(i)) == seq_lt(a.skip(i + 1), b.skip(i + 1)),
{
    assert(a.skip(i).drop_first() =~= a.skip(i + 1));
    assert(b.skip(i).drop_first() =~= b.skip(i + 1));
}

/// Whether `a` comes strictly before `b` in the order of `String`.
pub fn string_less(a: &str, b: &str) -> (r: bool)
    ensures
        r == seq_lt(a@, b@),
{
    let la = a.unicode_len();
    let lb = b.unicode_len();
    let mut i: usize = 0;
    assert(a@.skip(0) =~= a@);
    assert(b@.skip(0) =~= b@);
    while i < la && i < lb
        invariant
            la == a@.len(),
            lb == b@.len(),
            i <= la,
            i <= lb,
            seq_lt(a@, b@) == seq_lt(a@.skip(i as int), b@.skip(i as int)),
        decreases la - i,
    {
        let ca = a.get_char(i);
        let cb = b.get_char(i);
        if ca != cb {
            assert(a@.skip(i as int)[0] == ca);
            assert(b@.skip(i as int)[0] == cb);
            return (ca as u32) < (cb as u32);
        }
        proof {
            lemma_seq_lt_skip(a@, b@, i as int);
        }
        i = i + 1;
    }
    i == la && i < lb
}

proof fn lemma_digit_char_injective(x: int, y: int)
    requires
        0 <= x < 10,
        0 <= y < 10,
        digit_char(x) == digit_char(y),
    ensures
        x == y,
{
}

/// Different numbers have different decimal renderings.
pub proof fn lemma_dec_nat_injective(a: nat, b: nat)
    requires
        dec_nat(a) == dec_nat(b),
    ensures
        a == b,
    decreases a,
{
    if a >= 10 {
        lemma_dec_nat_len(a / 10);
        assert(dec_nat(a).len() >= 2);
    }
    if b >= 10 {
        lemma_dec_nat_len(b / 10);
        assert(dec_nat(b).len() >= 2);
    }
    if a < 10 && b < 10 {
        assert(dec_nat(a) == seq![digit_char(a as int)]);
        assert(dec_nat(b) == seq![digit_char(b as int)]);
        assert(dec_nat(a)[0] == digit_char(a as int));
        assert(dec_nat(b)[0] == digit_char(b as int));
        lemma_digit_char_injective(a as int, b as int);
    } else if a >= 10 && b >= 10 {
        assert(dec_nat(a).drop_last() =~= dec_nat(a / 10));
        assert(dec_nat(b).drop_last() =~= dec_nat(b / 10));
        lemma_dec_nat_injective(a / 10, b / 10);
        assert(dec_nat(a).last() == digit_char((a % 10) as int));
        assert(dec_nat(b).last() == digit_char((b % 10) as int));
        lemma_digit_char_injective((a % 10) as int, (b % 10) as int);
    }
}

/// The elements of `s` in the order of their first occurrence, each once.
pub open spec fn first_occurrences(s: Seq<Seq<char>>) -> Seq<Seq<char>>
    decreases s.len(),
{
    if s.len() == 0 {
        Seq::empty()
    } else {
        let r = first_occurrences(s.drop_last());
        if r.contains(s.last()) {
            r
        } else {
            r.push(s.last())
        }
    }
}

/// Every character of a decimal rendering is an ASCII digit.
pub proof fn lemma_dec_nat_is_digits(n: nat)
    ensures
        dec_nat(n).len() >= 1,
        forall|i: int| 0 <= i < dec_nat(n).len() ==> ('0' as int) <= (#[trigger] dec_nat(n)[i] as int) <= ('9' as int),
    decreases n,
{
    lemma_dec_nat_len(n);
    if n >= 10 {
        lemma_dec_nat_is_digits(n / 10);
        let d = (n % 10) as int;
        assert(('0' as int) <= (digit_char(d) as int) <= ('9' as int));
        assert forall|i: int| 0 <= i < dec_nat(n).len() implies ('0' as int) <= (#[trigger] dec_nat(n)[i] as int) <= ('9' as int) by {
            if i < dec_nat(n / 10).len() {
                assert(dec_nat(n)[i] == dec_nat(n / 10)[i]);
            }
        }
    } else {
        assert(('0' as int) <= (digit_char(n as int) as int) <= ('9' as int));
        assert(dec_nat(n) == seq![digit_char(n as int)]);
    }
}

/// A word made of a prefix and a number determines both, when the
/// prefixes have the same length.
pub proof fn lemma_prefixed_number_eq(p: Seq<char>, a: nat, q: Seq<char>, b: nat)
    requires
        p + dec_nat(a) == q + dec_nat(b),
        p.len() == q.len(),
    ensures
        p == q,
        a == b,
{
    let x = p + dec_nat(a);
    let y = q + dec_nat(b);
    assert(x.subrange(0, p.len() as int) =~= p);
    assert(y.subrange(0, q.len() as int) =~= q);
    assert(x.subrange(p.len() as int, x.len() as int) =~= dec_nat(a));
    assert(y.subrange(q.len() as int, y.len() as int) =~= dec_nat(b));
    lemma_dec_nat_injective(a, b);
}

/// A prefix followed by a number differs from a longer prefix followed by
/// a number when the longer one has no digit where the number starts.
pub proof fn lemma_prefixed_number_ne(p: Seq<char>, a: nat, q: Seq<char>, b: nat)
    requires
        p.len() < q.len(),
        !(('0' as int) <= (q[p.len() as int] as int) <= ('9' as int)),
    ensures
        p + dec_nat(a) != q + dec_nat(b),
{
    lemma_dec_nat_is_digits(a);
    assert((p + dec_nat(a))[p.len() as int] == dec_nat(a)[0]);
    assert((q + dec_nat(b))[p.len() as int] == q[p.len() as int]);
}

} // verus!
