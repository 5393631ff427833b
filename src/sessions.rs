use vstd::prelude::*;

use crate::active_time::{
    active_seconds, estimate_seconds, is_close_run, is_close_step, lemma_close_run_active_seconds,
    lemma_close_run_increasing_all, spread_fits,
};
use crate::heartbeats::{
    clone_project, extract_entries, is_sorted_by_time, sanitized, HeartbeatEntry, RawHeartbeat,
};

verus! {

/// The gap threshold used when none is given: fifteen minutes.
pub const DEFAULT_MAX_GAP_SECONDS: i64 = 15 * 60;

/// A run of activity: from `start` to `end` (seconds since the epoch), `seconds` of it
/// counted as active.
#[derive(Debug, Clone, PartialEq, Eq)]
pub struct Session {
    pub start: i64,
    pub end: i64,
    pub seconds: i64,
    pub project: Option<String>,
}

/// Every two heartbeat times are close enough for their difference to fit in an `i64`.
pub open spec fn times_fit(raw: Seq<RawHeartbeat>) -> bool {
    forall|i: int, j: int|
        0 <= i < raw.len() && 0 <= j < raw.len() && raw[i].time is Some && raw[j].time is Some
            ==> #[trigger] raw[i].time->Some_0 - #[trigger] raw[j].time->Some_0 <= i64::MAX
}

/// Two projects are the same when both are absent or both hold the same text.
pub open spec fn same_project(a: Option<String>, b: Option<String>) -> bool {
    match (a, b) {
        (Some(x), Some(y)) => x@ == y@,
        (None, None) => true,
        _ => false,
    }
}

/// A session of one heartbeat.
pub open spec fn point_session(e: HeartbeatEntry) -> Session {
    Session { start: e.time, end: e.time, seconds: 0, project: e.project }
}

/// The sessions of entries sorted by time. An entry with the same time as the entry before
/// it adds nothing. Another entry joins the last session when its gap to the entry before it
/// is at most `max_gap` and its project is the session's, and the session then runs to it;
/// else it starts a new session. A session's active seconds are its whole length: the gaps
/// inside it are all counted (`lemma_close_run_active_seconds`).
#[verifier::opaque]
pub open spec fn sessions_of(es: Seq<HeartbeatEntry>, max_gap: int) -> Seq<Session>
    decreases es.len(),
{
    if es.len() == 0 {
        Seq::empty()
    } else if es.len() == 1 {
        seq![point_session(es[0])]
    } else {
        let init = sessions_of(es.drop_last(), max_gap);
        let e = es.last();
        let prev = es[es.len() - 2].time;
        let open = init.last();
        if e.time == prev {
            init
        } else if e.time - prev <= max_gap && same_project(e.project, open.project) {
            init.update(
                init.len() - 1,
                Session { end: e.time, seconds: (e.time - open.start) as i64, ..open },
            )
        } else {
            init.push(point_session(e))
        }
    }
}

/// The session that a run of times makes while it is still growing.
pub open spec fn open_session(times: Seq<i64>, project: Option<String>) -> Session {
    Session {
        start: times[0],
        end: times.last(),
        seconds: (times.last() - times[0]) as i64,
        project,
    }
}

fn same_project_exec(a: &Option<String>, b: &Option<String>) -> (r: bool)
    ensures
        r == same_project(*a, *b),
{
    match (a, b) {
        (Some(x), Some(y)) => *x == *y,
        (None, None) => true,
        _ => false,
    }
}

fn make_session(times: &Vec<i64>, project: &Option<String>, max_gap: i64) -> (r: Session)
    requires
        times.len() >= 1,
        spread_fits(times@),
    ensures
        r.start == times@[0],
        r.end == times@.last(),
        r.seconds == active_seconds(times@, max_gap as int),
        r.project == *project,
{
    Session {
        start: times[0],
        end: times[times.len() - 1],
        seconds: estimate_seconds(times.as_slice(), max_gap),
        project: clone_project(project),
    }
}

/// Sessions in order: each ends before the next starts.
pub open spec fn is_ordered(ss: Seq<Session>) -> bool {
    forall|a: int, b: int| 0 <= a < b < ss.len() ==> #[trigger] ss[a].end < #[trigger] ss[b].start
}

/// Each session starts no later than it ends, and counts all of that time as active.
pub open spec fn is_well_timed(ss: Seq<Session>) -> bool {
    forall|k: int|
        0 <= k < ss.len() ==> #[trigger] ss[k].start <= ss[k].end && ss[k].seconds == ss[k].end
            - ss[k].start
}

proof fn lemma_step_duplicate(es: Seq<HeartbeatEntry>, max_gap: int)
    requires
        es.len() >= 2,
        es.last().time == es[es.len() - 2].time,
    ensures
        sessions_of(es, max_gap) == sessions_of(es.drop_last(), max_gap),
{
    reveal(sessions_of);
}

proof fn lemma_step_join(
    es: Seq<HeartbeatEntry>,
    max_gap: int,
    closed: Seq<Session>,
    times: Seq<i64>,
    project: Option<String>,
)
    requires
        es.len() >= 2,
        times.len() >= 1,
        times.last() == es[es.len() - 2].time,
        closed.push(open_session(times, project)) == sessions_of(es.drop_last(), max_gap),
        es.last().time != es[es.len() - 2].time,
        es.last().time - es[es.len() - 2].time <= max_gap,
        same_project(es.last().project, project),
    ensures
        closed.push(open_session(times.push(es.last().time), project)) == sessions_of(es, max_gap),
{
    reveal(sessions_of);
    let t2 = times.push(es.last().time);
    assert(t2[0] == times[0]);
    assert(closed.push(open_session(t2, project)) =~= sessions_of(es, max_gap));
}

proof fn lemma_step_split(
    es: Seq<HeartbeatEntry>,
    max_gap: int,
    closed: Seq<Session>,
    times: Seq<i64>,
    project: Option<String>,
)
    requires
        es.len() >= 2,
        times.len() >= 1,
        times.last() == es[es.len() - 2].time,
        closed.push(open_session(times, project)) == sessions_of(es.drop_last(), max_gap),
        es.last().time != es[es.len() - 2].time,
        !(es.last().time - es[es.len() - 2].time <= max_gap && same_project(
            es.last().project,
            project,
        )),
    ensures
        closed.push(open_session(times, project)).push(
            open_session(seq![es.last().time], es.last().project),
        ) == sessions_of(es, max_gap),
{
    reveal(sessions_of);
    assert(open_session(seq![es.last().time], es.last().project) == point_session(es.last()));
}

proof fn lemma_first_session(es: Seq<HeartbeatEntry>, max_gap: int)
    requires
        es.len() == 1,
    ensures
        sessions_of(es, max_gap) == seq![open_session(seq![es[0].time], es[0].project)],
{
    reveal(sessions_of);
    assert(open_session(seq![es[0].time], es[0].project) == point_session(es[0]));
}

proof fn lemma_close_run_spread(t: Seq<i64>, max_gap: int, lo: int, hi: int)
    requires
        t.len() >= 1,
        is_close_run(t, max_gap),
        lo <= t[0],
        t.last() <= hi,
        hi - lo <= i64::MAX,
    ensures
        spread_fits(t),
{
    lemma_close_run_increasing_all(t, max_gap);
    assert forall|a: int, b: int| 0 <= a < t.len() && 0 <= b < t.len() implies #[trigger] t[a]
        - #[trigger] t[b] <= i64::MAX by {
        assert(t[a] <= t[t.len() - 1]);
        assert(t[0] <= t[b]);
    }
}

proof fn lemma_push_ordered(ss: Seq<Session>, s: Session)
    requires
        is_ordered(ss),
        is_well_timed(ss),
        forall|k: int| 0 <= k < ss.len() ==> #[trigger] ss[k].end < s.start,
        s.start <= s.end,
        s.seconds == s.end - s.start,
    ensures
        is_ordered(ss.push(s)),
        is_well_timed(ss.push(s)),
{
    let t = ss.push(s);
    assert forall|a: int, b: int| 0 <= a < b < t.len() implies #[trigger] t[a].end < #[trigger] t[b].start by {
        if b == ss.len() {
            assert(ss[a].end < s.start);
        } else {
            assert(t[a] == ss[a] && t[b] == ss[b]);
        }
    }
    assert forall|k: int| 0 <= k < t.len() implies #[trigger] t[k].start <= t[k].end && t[k].seconds
        == t[k].end - t[k].start by {
        if k < ss.len() {
            assert(t[k] == ss[k]);
        }
    }
}

/// Groups heartbeats into sessions: the entries of `extract_entries`, taken in time order,
/// split where the project changes or the gap to the entry before exceeds `max_gap`.
pub fn build_sessions(heartbeats: &[RawHeartbeat], max_gap: i64) -> (r: Vec<Session>)
    requires
        times_fit(heartbeats@),
    ensures
        r@ == sessions_of(sanitized(heartbeats@), max_gap as int),
        is_well_timed(r@),
        is_ordered(r@),
{
    let entries = extract_entries(heartbeats);
    let mut sessions: Vec<Session> = Vec::new();
    if entries.len() == 0 {
        proof {
            reveal(sessions_of);
        }
        return sessions;
    }
    assert forall|a: int, b: int|
        0 <= a < entries.len() && 0 <= b < entries.len() implies #[trigger] entries@[a].time
            - #[trigger] entries@[b].time <= i64::MAX by {
        let ja = choose|j: int|
            0 <= j < heartbeats@.len() && #[trigger] heartbeats@[j].time == Some(entries@[a].time);
        let jb = choose|j: int|
            0 <= j < heartbeats@.len() && #[trigger] heartbeats@[j].time == Some(entries@[b].time);
        assert(heartbeats@[ja].time->Some_0 - heartbeats@[jb].time->Some_0 <= i64::MAX);
    }
    let ghost first_time = entries@[0].time;
    let mut current_times: Vec<i64> = Vec::new();
    current_times.push(entries[0].time);
    let mut current_project = clone_project(&entries[0].project);
    let mut prev_time: i64 = entries[0].time;
    proof {
        lemma_first_session(entries@.take(1), max_gap as int);
        assert(entries@.take(1)[0] == entries@[0]);
        assert(current_times@ =~= seq![first_time]);
        assert(sessions@.push(open_session(current_times@, current_project)) =~= seq![
            open_session(current_times@, current_project),
        ]);
    }
    let mut i: usize = 1;
    while i < entries.len()
        invariant
            1 <= i <= entries.len(),
            is_sorted_by_time(entries@),
            first_time == entries@[0].time,
            forall|a: int, b: int|
                0 <= a < entries.len() && 0 <= b < entries.len() ==> #[trigger] entries@[a].time
                    - #[trigger] entries@[b].time <= i64::MAX,
            prev_time == entries@[i - 1].time,
            current_times.len() >= 1,
            current_times@.last() == prev_time,
            current_times@[0] >= first_time,
            is_close_run(current_times@, max_gap as int),
            sessions@.push(open_session(current_times@, current_project)) == sessions_of(
                entries@.take(i as int),
                max_gap as int,
            ),
            forall|k: int| 0 <= k < sessions.len() ==> #[trigger] sessions@[k].end < current_times@[0],
            is_well_timed(sessions@),
            is_ordered(sessions@),
        decreases entries.len() - i,
    {
        let entry = &entries[i];
        let ghost es = entries@.take(i + 1);
        assert(es.drop_last() =~= entries@.take(i as int));
        assert(es.last() == entries@[i as int]);
        assert(es[es.len() - 2] == entries@[i - 1]);
        assert(entries@[i - 1].time <= entries@[i as int].time);
        assert(entries@[i as int].time - first_time <= i64::MAX);
        let ghost old_times = current_times@;
        if entry.time != prev_time {
            let gap: i128 = entry.time as i128 - prev_time as i128;
            if gap <= max_gap as i128 && same_project_exec(&entry.project, &current_project) {
                proof {
                    lemma_step_join(es, max_gap as int, sessions@, old_times, current_project);
                }
                current_times.push(entry.time);
                assert(current_times@ == old_times.push(entry.time));
                assert forall|k: int| 0 < k < current_times@.len() implies #[trigger] is_close_step(
                    current_times@,
                    k,
                    max_gap as int,
                ) by {
                    if k < old_times.len() {
                        assert(is_close_step(old_times, k, max_gap as int));
                    }
                }
            } else {
                proof {
                    lemma_close_run_spread(old_times, max_gap as int, first_time as int, prev_time as int);
                    lemma_close_run_active_seconds(old_times, max_gap as int);
                    lemma_close_run_increasing_all(old_times, max_gap as int);
                    lemma_step_split(es, max_gap as int, sessions@, old_times, current_project);
                }
                let closed = make_session(&current_times, &current_project, max_gap);
                assert(closed == open_session(old_times, current_project));
                proof {
                    lemma_push_ordered(sessions@, closed);
                }
                sessions.push(closed);
                current_times = Vec::new();
                current_times.push(entry.time);
                current_project = clone_project(&entry.project);
                assert(current_times@ =~= seq![entry.time]);
            }
            prev_time = entry.time;
        } else {
            proof {
                lemma_step_duplicate(es, max_gap as int);
            }
        }
        i = i + 1;
    }
    assert(entries@.take(entries@.len() as int) =~= entries@);
    let ghost last_times = current_times@;
    let ghost old_sessions = sessions@;
    proof {
        lemma_close_run_spread(last_times, max_gap as int, first_time as int, prev_time as int);
        lemma_close_run_active_seconds(last_times, max_gap as int);
        lemma_close_run_increasing_all(last_times, max_gap as int);
    }
    let closed = make_session(&current_times, &current_project, max_gap);
    assert(closed == open_session(last_times, current_project));
    proof {
        lemma_push_ordered(old_sessions, closed);
    }
    sessions.push(closed);
    sessions
}

} // verus!
