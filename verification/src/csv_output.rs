//! The flat records in which the commit statistics are cached between runs.
use vstd::prelude::*;
use crate::model::{GitTime, Stat};
use crate::oid::{lemma_oid_hex_roundtrip, oid_bytes_of_hex, oid_from_str, oid_hex, oid_to_string, valid_oid_hex};

verus! {

/// One commit as a record of the cache: the object id in hexadecimal, the
/// time as seconds and offset, and the message, empty when there is none.
#[derive(Clone, Debug)]
pub struct LocalStat {
    pub id: String,
    pub author: String,
    pub email: String,
    pub inserts: u32,
    pub dels: u32,
    pub time: i64,
    pub offset_minutes: i32,
    pub message: String,
}

/// `s` is the commit that the record `ls` describes.
pub open spec fn stat_of_record(ls: LocalStat, s: Stat) -> bool {
    &&& s.id@ == oid_bytes_of_hex(ls.id@)
    &&& s.author@ == ls.author@
    &&& s.email@ == ls.email@
    &&& s.inserts == ls.inserts
    &&& s.dels == ls.dels
    &&& s.time.seconds == ls.time
    &&& s.time.offset_minutes == ls.offset_minutes
    &&& if ls.message@.len() == 0 {
        s.message is None
    } else {
        s.message matches Some(m) && m@ == ls.message@
    }
}

/// `ls` is the record of the commit `s`.
pub open spec fn record_of_stat(s: Stat, ls: LocalStat) -> bool {
    &&& ls.id@ == oid_hex(s.id@)
    &&& ls.author@ == s.author@
    &&& ls.email@ == s.email@
    &&& ls.inserts == s.inserts
    &&& ls.dels == s.dels
    &&& ls.time == s.time.seconds
    &&& ls.offset_minutes == s.time.offset_minutes
    &&& ls.message@ == match s.message {
        Some(m) => m@,
        None => Seq::<char>::empty(),
    }
}

/// The commit that a record describes; an empty message is no message.
pub fn stat_from_local(ls: &LocalStat) -> (s: Stat)
    requires
        valid_oid_hex(ls.id@),
    ensures
        stat_of_record(*ls, s),
{
    let message = if ls.message.as_str().is_empty() {
        None
    } else {
        Some(ls.message.clone())
    };
    let id = oid_from_str(ls.id.as_str()).unwrap();
    Stat {
        id: id,
        author: ls.author.clone(),
        email: ls.email.clone(),
        inserts: ls.inserts,
        dels: ls.dels,
        time: GitTime { seconds: ls.time, offset_minutes: ls.offset_minutes },
        message: message,
    }
}

/// The record of a commit; no message becomes an empty one.
pub fn local_from_stat(s: &Stat) -> (ls: LocalStat)
    ensures
        record_of_stat(*s, ls),
{
    let message = match &s.message {
        Some(m) => m.clone(),
        None => String::new(),
    };
    let id = oid_to_string(&s.id).unwrap();
    LocalStat {
        id: id,
        author: s.author.clone(),
        email: s.email.clone(),
        inserts: s.inserts,
        dels: s.dels,
        time: s.time.seconds,
        offset_minutes: s.time.offset_minutes,
        message: message,
    }
}

/// The commits that cached records describe, in the same order.
pub fn stats_from_records(records: &[LocalStat]) -> (stats: Vec<Stat>)
    requires
        forall|i: int| 0 <= i < records@.len() ==> valid_oid_hex(#[trigger] records@[i].id@),
    ensures
        stats@.len() == records@.len(),
        forall|i: int| 0 <= i < records@.len() ==> stat_of_record(#[trigger] records@[i], stats@[i]),
{
    let mut stats: Vec<Stat> = Vec::new();
    let mut i: usize = 0;
    while i < records.len()
        invariant
            i <= records@.len(),
            stats@.len() == i,
            forall|k: int| 0 <= k < records@.len() ==> valid_oid_hex(#[trigger] records@[k].id@),
            forall|k: int| 0 <= k < i ==> stat_of_record(#[trigger] records@[k], stats@[k]),
        decreases records@.len() - i,
    {
        stats.push(stat_from_local(&records[i]));
        i = i + 1;
    }
    stats
}

/// The records of commits for the cache, in the same order.
pub fn records_from_stats(stats: &[Stat]) -> (records: Vec<LocalStat>)
    ensures
        records@.len() == stats@.len(),
        forall|i: int| 0 <= i < stats@.len() ==> record_of_stat(#[trigger] stats@[i], records@[i]),
{
    let mut records: Vec<LocalStat> = Vec::new();
    let mut i: usize = 0;
    while i < stats.len()
        invariant
            i <= stats@.len(),
            records@.len() == i,
            forall|k: int| 0 <= k < i ==> record_of_stat(#[trigger] stats@[k], records@[k]),
        decreases stats@.len() - i,
    {
        records.push(local_from_stat(&stats[i]));
        i = i + 1;
    }
    records
}

/// Two commits with the same fields.
pub open spec fn same_stat(a: Stat, b: Stat) -> bool {
    &&& a.id@ == b.id@
    &&& a.author@ == b.author@
    &&& a.email@ == b.email@
    &&& a.inserts == b.inserts
    &&& a.dels == b.dels
    &&& a.time.seconds == b.time.seconds
    &&& a.time.offset_minutes == b.time.offset_minutes
    &&& match (a.message, b.message) {
        (Some(x), Some(y)) => x@ == y@,
        (None, None) => true,
        _ => false,
    }
}

/// Caching a commit and loading it back gives the same commit, unless it has
/// an empty message, which comes back as no message.
pub proof fn law_cache_round_trip(s: Stat, ls: LocalStat, back: Stat)
    requires
        record_of_stat(s, ls),
        stat_of_record(ls, back),
    ensures
        valid_oid_hex(ls.id@),
        (s.message matches Some(m) && m@.len() == 0) ==> back.message is None,
        !(s.message matches Some(m) && m@.len() == 0) ==> same_stat(s, back),
{
    lemma_oid_hex_roundtrip(s.id@);
    assert(back.id@ =~= s.id@);
}

/// The record of a loaded record is that record, when its id is written as
/// forty lower-case hexadecimal digits.
pub proof fn law_record_round_trip(ls: LocalStat, s: Stat, back: LocalStat)
    requires
        stat_of_record(ls, s),
        record_of_stat(s, back),
        ls.id@ == oid_hex(oid_bytes_of_hex(ls.id@)),
    ensures
        back.id@ == ls.id@,
        back.author@ == ls.author@,
        back.email@ == ls.email@,
        back.inserts == ls.inserts,
        back.dels == ls.dels,
        back.time == ls.time,
        back.offset_minutes == ls.offset_minutes,
        back.message@ == ls.message@,
{
}

} // verus!
