use vstd::prelude::*;

use crate::text::{is_blank, is_blank_text};

verus! {

/// A heartbeat as the server sends it: its time in whole seconds since the epoch (a
/// fractional time is cut toward zero before it gets here), and its project, if any.
#[derive(Debug, Clone)]
pub struct RawHeartbeat {
    pub time: Option<i64>,
    pub project: Option<String>,
}

/// A heartbeat with a usable time, and a project that is not blank.
#[derive(Debug, Clone, PartialEq, Eq)]
pub struct HeartbeatEntry {
    pub time: i64,
    pub project: Option<String>,
}

/// The project that an entry keeps: none for a missing or blank one, else the text unchanged.
pub open spec fn project_of(p: Option<String>) -> Option<String> {
    match p {
        Some(s) => if is_blank(s@) {
            None
        } else {
            Some(s)
        },
        None => None,
    }
}

/// The heartbeats that have a time, in the order given.
pub open spec fn usable_entries(raw: Seq<RawHeartbeat>) -> Seq<HeartbeatEntry>
    decreases raw.len(),
{
    if raw.len() == 0 {
        Seq::empty()
    } else {
        let init = usable_entries(raw.drop_last());
        match raw.last().time {
            Some(t) => init.push(HeartbeatEntry { time: t, project: project_of(raw.last().project) }),
            None => init,
        }
    }
}

/// `s` with `e` placed after every entry whose time is not later than its own.
pub open spec fn insert_by_time(s: Seq<HeartbeatEntry>, e: HeartbeatEntry) -> Seq<HeartbeatEntry>
    decreases s.len(),
{
    if s.len() == 0 || s.last().time <= e.time {
        s.push(e)
    } else {
        insert_by_time(s.drop_last(), e).push(s.last())
    }
}

/// `s` sorted by time; entries with equal times keep their order.
pub open spec fn sort_by_time(s: Seq<HeartbeatEntry>) -> Seq<HeartbeatEntry>
    decreases s.len(),
{
    if s.len() == 0 {
        s
    } else {
        insert_by_time(sort_by_time(s.drop_last()), s.last())
    }
}

/// The entries that `extract_entries` makes of `raw`.
pub open spec fn sanitized(raw: Seq<RawHeartbeat>) -> Seq<HeartbeatEntry> {
    sort_by_time(usable_entries(raw))
}

/// Entries in order of time.
pub open spec fn is_sorted_by_time(s: Seq<HeartbeatEntry>) -> bool {
    forall|i: int, j: int| 0 <= i <= j < s.len() ==> #[trigger] s[i].time <= #[trigger] s[j].time
}

proof fn lemma_insert_by_time_at(s: Seq<HeartbeatEntry>, e: HeartbeatEntry, p: int)
    requires
        0 <= p <= s.len(),
        forall|k: int| p <= k < s.len() ==> #[trigger] s[k].time > e.time,
        p == 0 || s[p - 1].time <= e.time,
    ensures
        insert_by_time(s, e) == s.insert(p, e),
    decreases s.len(),
{
    if p < s.len() {
        lemma_insert_by_time_at(s.drop_last(), e, p);
        assert(insert_by_time(s, e) =~= s.insert(p, e));
    } else {
        assert(s.push(e) =~= s.insert(p, e));
    }
}

/// The first place in `v` after which no entry is later than `time`.
fn insertion_point(v: &Vec<HeartbeatEntry>, time: i64) -> (p: usize)
    ensures
        p <= v.len(),
        forall|k: int| p <= k < v.len() ==> #[trigger] v[k].time > time,
        p == 0 || v[p - 1].time <= time,
{
    let mut p = v.len();
    while p > 0 && v[p - 1].time > time
        invariant
            p <= v.len(),
            forall|k: int| p <= k < v.len() ==> #[trigger] v[k].time > time,
        decreases p,
    {
        p = p - 1;
    }
    p
}

pub(crate) fn clone_project(p: &Option<String>) -> (r: Option<String>)
    ensures
        r == *p,
{
    match p {
        Some(s) => Some(s.clone()),
        None => None,
    }
}

fn clean_project(p: &Option<String>) -> (r: Option<String>)
    ensures
        r == project_of(*p),
{
    match p {
        Some(s) => if is_blank_text(s.as_str()) {
            None
        } else {
            Some(s.clone())
        },
        None => None,
    }
}

/// The heartbeats that have a time, sorted by it (a stable sort), each with its project
/// cleaned: a missing or blank project becomes none.
pub fn extract_entries(heartbeats: &[RawHeartbeat]) -> (r: Vec<HeartbeatEntry>)
    ensures
        r@ == sanitized(heartbeats@),
        is_sorted_by_time(r@),
        forall|k: int|
            0 <= k < r.len() ==> exists|j: int|
                0 <= j < heartbeats@.len() && #[trigger] heartbeats@[j].time == Some(
                    #[trigger] r@[k].time,
                ),
{
    let mut out: Vec<HeartbeatEntry> = Vec::new();
    let mut i: usize = 0;
    while i < heartbeats.len()
        invariant
            i <= heartbeats@.len(),
            out@ == sort_by_time(usable_entries(heartbeats@.take(i as int))),
            is_sorted_by_time(out@),
            forall|k: int|
                0 <= k < out.len() ==> exists|j: int|
                    0 <= j < heartbeats@.len() && #[trigger] heartbeats@[j].time == Some(
                        #[trigger] out@[k].time,
                    ),
        decreases heartbeats.len() - i,
    {
        let hb = &heartbeats[i];
        let ghost prefix = heartbeats@.take(i as int);
        assert(heartbeats@.take(i + 1).drop_last() =~= prefix);
        assert(heartbeats@.take(i + 1).last() == heartbeats@[i as int]);
        match hb.time {
            Some(t) => {
                let e = HeartbeatEntry { time: t, project: clean_project(&hb.project) };
                let p = insertion_point(&out, t);
                let ghost before = out@;
                proof {
                    lemma_insert_by_time_at(before, e, p as int);
                    let grown = usable_entries(prefix).push(e);
                    assert(usable_entries(heartbeats@.take(i + 1)) == grown);
                    assert(grown.drop_last() =~= usable_entries(prefix));
                    assert(sort_by_time(grown) == insert_by_time(before, e));
                }
                out.insert(p, e);
                assert forall|a: int, b: int| 0 <= a <= b < out.len() implies #[trigger] out@[a].time
                    <= #[trigger] out@[b].time by {
                    if a < p && b > p {
                        assert(before[a].time <= before[p - 1].time);
                    }
                }
                assert forall|k: int| 0 <= k < out.len() implies exists|j: int|
                    0 <= j < heartbeats@.len() && #[trigger] heartbeats@[j].time == Some(
                        #[trigger] out@[k].time,
                    ) by {
                    if k < p {
                        assert(out@[k] == before[k]);
                    } else if k > p {
                        assert(out@[k] == before[k - 1]);
                    } else {
                        assert(heartbeats@[i as int].time == Some(out@[k].time));
                    }
                }
            },
            None => {
                assert(usable_entries(heartbeats@.take(i + 1)) == usable_entries(prefix));
            },
        }
        i = i + 1;
    }
    assert(heartbeats@.take(heartbeats@.len() as int) =~= heartbeats@);
    out
}

} // verus!
