//! The statistics of one commit from the values git reports, and the
//! progress shown while the commits are diffed.
use vstd::prelude::*;
use crate::model::{GitTime, Stat};
use crate::text::{dec_nat, decimal_u64};

verus! {

/// The author name recorded for a commit whose name git cannot read.
pub open spec fn unknown_author() -> Seq<char> {
    "Unknown"@
}

/// The e-mail address recorded for a commit whose address git cannot read.
pub open spec fn unknown_email() -> Seq<char> {
    "unknown@user.com"@
}

/// Whether a commit with this many parents is diffed: merge commits (and
/// root commits) are skipped.
pub fn is_counted(parent_count: usize) -> (r: bool)
    ensures
        r == (parent_count == 1),
{
    parent_count == 1
}

/// The statistics of a commit: its id, author name and e-mail address
/// (with defaults where git cannot read them), the lines its diff against
/// its parent inserts and deletes (converted to `u32` by `as`), its time
/// and its message.
pub fn commit_stat(
    id: [u8; 20],
    name: Option<String>,
    email: Option<String>,
    insertions: usize,
    deletions: usize,
    time: GitTime,
    message: Option<String>,
) -> (s: Stat)
    ensures
        s.id == id,
        s.author@ == (match name {
            Some(n) => n@,
            None => unknown_author(),
        }),
        s.email@ == (match email {
            Some(e) => e@,
            None => unknown_email(),
        }),
        s.inserts == insertions as u32,
        s.dels == deletions as u32,
        s.time == time,
        s.message == message,
{
    proof {
        reveal_strlit("Unknown");
        reveal_strlit("unknown@user.com");
    }
    let author = match name {
        Some(x) => x,
        None => String::from_str("Unknown"),
    };
    let email = match email {
        Some(x) => x,
        None => String::from_str("unknown@user.com"),
    };
    Stat {
        id: id,
        author: author,
        email: email,
        inserts: insertions as u32,
        dels: deletions as u32,
        time: time,
        message: message,
    }
}

/// Progress in half percents (0 to 200) after `counter` of `total` commits.
pub open spec fn half_percents(counter: int, total: int) -> int {
    counter * 200 / total
}

/// The progress line: a carriage return, a bar of fifty cells of which the
/// first quarter of the half percents are filled with `■`, and the counts.
pub open spec fn progress_line(counter: nat, total: nat) -> Seq<char> {
    "\r["@ + Seq::new(50, |i: int| if i < half_percents(counter as int, total as int) / 4 { '\u{25A0}' } else { ' ' })
        + "] "@ + dec_nat(counter) + "/"@ + dec_nat(total)
}

/// One look at the progress of the diffing threads: `counter` of `total`
/// commits are done and the line last shown was at `last` half percents.
/// Gives the half percents of the line shown now, the line to show when
/// the progress moved by at least one half percent, and whether all
/// commits are done.
pub fn progress_step(last: usize, counter: usize, total: usize) -> (r: (usize, Option<String>, bool))
    requires
        total > 0,
        counter * 200 <= usize::MAX,
        last <= half_percents(counter as int, total as int),
    ensures
        half_percents(counter as int, total as int) - last >= 1 ==> {
            &&& r.0 == half_percents(counter as int, total as int)
            &&& r.1 matches Some(line) && line@ == progress_line(counter as nat, total as nat)
        },
        half_percents(counter as int, total as int) - last < 1 ==> r.0 == last && r.1 is None,
        r.2 == (counter >= total),
{
    let of_half_percents = counter * 200 / total;
    let mut line: Option<String> = None;
    let mut shown = last;
    if of_half_percents - last >= 1 {
        proof {
            reveal_strlit("\r[");
            reveal_strlit("\u{25A0}");
            reveal_strlit(" ");
            reveal_strlit("] ");
            reveal_strlit("/");
        }
        let mut s = String::from_str("\r[");
        let ghost cells = Seq::new(
            50,
            |i: int| if i < half_percents(counter as int, total as int) / 4 { '\u{25A0}' } else { ' ' },
        );
        let mut i: usize = 0;
        while i < 50
            invariant
                i <= 50,
                of_half_percents == half_percents(counter as int, total as int),
                cells == Seq::new(
                    50,
                    |i: int| if i < half_percents(counter as int, total as int) / 4 { '\u{25A0}' } else { ' ' },
                ),
                "\u{25A0}"@ == seq!['\u{25A0}'],
                " "@ == seq![' '],
                s@ == "\r["@ + cells.take(i as int),
            decreases 50 - i,
        {
            if i < of_half_percents / 4 {
                s.append("\u{25A0}");
            } else {
                s.append(" ");
            }
            assert(cells.take(i + 1) =~= cells.take(i as int).push(cells[i as int]));
            i = i + 1;
        }
        assert(cells.take(50) =~= cells);
        s.append("] ");
        s.append(decimal_u64(counter as u64).as_str());
        s.append("/");
        s.append(decimal_u64(total as u64).as_str());
        line = Some(s);
        shown = of_half_percents;
    }
    (shown, line, counter >= total)
}

} // verus!
