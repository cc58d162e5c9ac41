//! Object ids of commits, converted to and from hexadecimal by `git2`.
use vstd::prelude::*;

verus! {

/// The error type of `git2`.
#[verifier::external_type_specification]
#[verifier::external_body]
pub struct ExGitError(git2::Error);

/// A hexadecimal digit, in either case.
pub open spec fn is_hex_digit(c: char) -> bool {
    ||| ('0' as int) <= (c as int) <= ('9' as int)
    ||| ('a' as int) <= (c as int) <= ('f' as int)
    ||| ('A' as int) <= (c as int) <= ('F' as int)
}

/// The value of a hexadecimal digit.
pub open spec fn hex_value(c: char) -> int {
    if ('0' as int) <= (c as int) <= ('9' as int) {
        c as int - ('0' as int)
    } else if ('a' as int) <= (c as int) <= ('f' as int) {
        c as int - ('a' as int) + 10
    } else {
        c as int - ('A' as int) + 10
    }
}

/// The lower-case hexadecimal digit of a value below 16.
pub open spec fn hex_char(v: int) -> char {
    if v < 10 {
        (('0' as int) + v) as char
    } else {
        (('a' as int) + v - 10) as char
    }
}

/// A text that `git2::Oid::from_str` accepts: one to forty hexadecimal
/// digits.
pub open spec fn valid_oid_hex(s: Seq<char>) -> bool {
    &&& 0 < s.len() <= 40
    &&& forall|i: int| 0 <= i < s.len() ==> is_hex_digit(#[trigger] s[i])
}

/// The value of digit `p` of a hexadecimal text padded with zeros.
pub open spec fn nibble(s: Seq<char>, p: int) -> int {
    if p < s.len() {
        hex_value(s[p])
    } else {
        0
    }
}

/// The 20 bytes that a hexadecimal text denotes: two digits per byte, high
/// digit first, with missing digits taken as zero.
pub open spec fn oid_bytes_of_hex(s: Seq<char>) -> Seq<u8> {
    Seq::new(20, |k: int| (nibble(s, 2 * k) * 16 + nibble(s, 2 * k + 1)) as u8)
}

/// The 40 lower-case hexadecimal digits of 20 bytes, high digit first.
pub open spec fn oid_hex(b: Seq<u8>) -> Seq<char> {
    Seq::new(40, |p: int| hex_char(if p % 2 == 0 { b[p / 2] as int / 16 } else { b[p / 2] as int % 16 }))
}

/// Whether a character is a hexadecimal digit.
fn hex_digit(c: char) -> (r: bool)
    ensures
        r == is_hex_digit(c),
{
    ('0' <= c && c <= '9') || ('a' <= c && c <= 'f') || ('A' <= c && c <= 'F')
}

/// Whether a text is one to forty hexadecimal digits, as object ids are
/// written.
pub fn is_oid_hex(s: &str) -> (r: bool)
    ensures
        r == valid_oid_hex(s@),
{
    let n = s.unicode_len();
    if n == 0 || n > 40 {
        return false;
    }
    let mut i: usize = 0;
    while i < n
        invariant
            n == s@.len(),
            i <= n,
            forall|k: int| 0 <= k < i ==> is_hex_digit(#[trigger] s@[k]),
        decreases n - i,
    {
        if !hex_digit(s.get_char(i)) {
            return false;
        }
        i = i + 1;
    }
    true
}

/// Parses a hexadecimal object id.
///
/// Calls `git2::Oid::from_str` and returns the raw bytes of the id. Its
/// documentation and libgit2's `git_oid__fromstrn` show that it fails on an
/// empty text, on more than 40 characters and on any character that is not
/// a hexadecimal digit, and otherwise sets two digits per byte, padding
/// with zeros; the contract states that.
#[verifier::external_body]
pub(crate) fn oid_from_str(s: &str) -> (r: Result<[u8; 20], git2::Error>)
    ensures
        r is Ok <==> valid_oid_hex(s@),
        r matches Ok(b) ==> b@ == oid_bytes_of_hex(s@),
{
    match git2::Oid::from_str(s) {
        Ok(o) => {
            let mut b = [0u8; 20];
            b.copy_from_slice(o.as_bytes());
            Ok(b)
        },
        Err(e) => Err(e),
    }
}

/// The hexadecimal text of an object id.
///
/// Calls `git2::Oid::from_bytes` and the `Display` of `git2::Oid`. The
/// source shows that `from_bytes` accepts any 20 bytes and that libgit2's
/// `git_oid_fmt` writes each byte as two lower-case hexadecimal digits,
/// high digit first; the contract states that.
#[verifier::external_body]
pub(crate) fn oid_to_string(b: &[u8; 20]) -> (r: Result<String, git2::Error>)
    ensures
        r is Ok,
        r matches Ok(s) ==> s@ == oid_hex(b@),
{
    match git2::Oid::from_bytes(b) {
        Ok(o) => Ok(o.to_string()),
        Err(e) => Err(e),
    }
}

/// The hexadecimal text of 20 bytes denotes those bytes.
pub proof fn lemma_oid_hex_roundtrip(b: Seq<u8>)
    requires
        b.len() == 20,
    ensures
        valid_oid_hex(oid_hex(b)),
        oid_bytes_of_hex(oid_hex(b)) == b,
{
    let h = oid_hex(b);
    assert forall|i: int| 0 <= i < h.len() implies is_hex_digit(#[trigger] h[i]) && hex_value(h[i]) == (if i % 2 == 0 { b[i / 2] as int / 16 } else { b[i / 2] as int % 16 }) by {
        let v: int = if i % 2 == 0 { b[i / 2] as int / 16 } else { b[i / 2] as int % 16 };
        assert(0 <= v < 16);
    }
    assert forall|k: int| 0 <= k < 20 implies #[trigger] oid_bytes_of_hex(h)[k] == b[k] by {
        assert(h[2 * k] == hex_char(b[k] as int / 16));
        assert(h[2 * k + 1] == hex_char(b[k] as int % 16));
        assert(hex_value(h[2 * k]) == b[k] as int / 16);
        assert(hex_value(h[2 * k + 1]) == b[k] as int % 16);
        assert((b[k] as int / 16) * 16 + b[k] as int % 16 == b[k] as int);
    }
    assert(oid_bytes_of_hex(h) =~= b);
}

} // verus!
