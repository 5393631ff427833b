use vstd::prelude::*;

use crate::calendar::Date;
use crate::heartbeats::clone_project;
use crate::sessions::Session;
use crate::text::{contains, contains_text, lower_of, lowercase, opt_text, text_views, trim, trim_of};

verus! {

/// The sessions of one calendar day, in order.
#[derive(Debug, Clone, PartialEq, Eq)]
pub struct DaySessions {
    pub date: Date,
    pub sessions: Vec<Session>,
}

impl View for DaySessions {
    type V = (Date, Seq<Session>);

    open spec fn view(&self) -> (Date, Seq<Session>) {
        (self.date, self.sessions@)
    }
}

/// The pieces of `s` between its commas, empty ones included.
pub open spec fn split_commas(s: Seq<char>) -> Seq<Seq<char>>
    decreases s.len(),
{
    if s.len() == 0 {
        seq![Seq::empty()]
    } else {
        let init = split_commas(s.drop_last());
        if s.last() == ',' {
            init.push(Seq::empty())
        } else {
            init.update(init.len() - 1, init.last().push(s.last()))
        }
    }
}

/// Each piece trimmed and lowercased; the pieces that are then empty are left out.
pub open spec fn terms_of(pieces: Seq<Seq<char>>) -> Seq<Seq<char>>
    decreases pieces.len(),
{
    if pieces.len() == 0 {
        Seq::empty()
    } else {
        let init = terms_of(pieces.drop_last());
        let t = lower_of(trim_of(pieces.last()));
        if t.len() > 0 {
            init.push(t)
        } else {
            init
        }
    }
}

/// The search terms of a filter text: its comma-separated parts, trimmed and lowercased,
/// without empty ones. No filter, and an empty one, have no terms.
pub open spec fn filter_terms(filter: Option<Seq<char>>) -> Seq<Seq<char>> {
    match filter {
        Some(f) => if f.len() == 0 {
            Seq::empty()
        } else {
            terms_of(split_commas(f))
        },
        None => Seq::empty(),
    }
}

/// The text that a filter is matched against: the project, or nothing for none.
pub open spec fn project_text(p: Option<String>) -> Seq<char> {
    match p {
        Some(s) => s@,
        None => Seq::empty(),
    }
}

/// The session's lowercased project holds one of the terms.
pub open spec fn matches_any(s: Session, terms: Seq<Seq<char>>) -> bool {
    exists|k: int|
        0 <= k < terms.len() && contains_text(lower_of(project_text(s.project)), #[trigger] terms[k])
}

/// The test that a session passes when its project holds one of the terms.
pub open spec fn session_test(terms: Seq<Seq<char>>) -> spec_fn(Session) -> bool {
    |s: Session| matches_any(s, terms)
}

/// What the filter keeps of a day: its matching sessions, in order.
pub open spec fn kept_day(terms: Seq<Seq<char>>) -> spec_fn((Date, Seq<Session>)) -> (
    Date,
    Seq<Session>,
) {
    |day: (Date, Seq<Session>)| (day.0, day.1.filter(session_test(terms)))
}

/// A day that still has a session.
pub open spec fn has_sessions() -> spec_fn((Date, Seq<Session>)) -> bool {
    |day: (Date, Seq<Session>)| day.1.len() > 0
}

/// The days that `filter_sessions` gives: all of them unchanged when the filter has no
/// terms; else each day with its matching sessions, without the days left with none.
pub open spec fn filtered_days(days: Seq<(Date, Seq<Session>)>, filter: Option<Seq<char>>) -> Seq<
    (Date, Seq<Session>),
> {
    let terms = filter_terms(filter);
    if terms.len() == 0 {
        days
    } else {
        days.map_values(kept_day(terms)).filter(has_sessions())
    }
}

pub open spec fn day_views(days: Seq<DaySessions>) -> Seq<(Date, Seq<Session>)> {
    days.map_values(|d: DaySessions| d@)
}

proof fn lemma_split_nonempty(s: Seq<char>)
    ensures
        split_commas(s).len() >= 1,
    decreases s.len(),
{
    if s.len() > 0 {
        lemma_split_nonempty(s.drop_last());
    }
}

/// Splits `s` at each comma.
fn split_at_commas(s: &str) -> (r: Vec<String>)
    ensures
        text_views(r@) == split_commas(s@),
{
    let n = s.unicode_len();
    let mut pieces: Vec<String> = Vec::new();
    let mut start: usize = 0;
    let mut i: usize = 0;
    assert(s@.take(0) =~= Seq::<char>::empty());
    assert(text_views(pieces@).push(s@.subrange(0, 0)) =~= seq![Seq::<char>::empty()]);
    while i < n
        invariant
            n == s@.len(),
            start <= i <= n,
            text_views(pieces@).push(s@.subrange(start as int, i as int)) == split_commas(
                s@.take(i as int),
            ),
        decreases n - i,
    {
        let c = s.get_char(i);
        let ghost prefix = s@.take(i as int);
        proof {
            lemma_split_nonempty(prefix);
            assert(s@.take(i + 1).drop_last() =~= prefix);
            assert(s@.take(i + 1).last() == c);
        }
        if c == ',' {
            let piece = s.substring_char(start, i).to_owned();
            pieces.push(piece);
            start = i + 1;
            assert(text_views(pieces@) =~= text_views(pieces@.drop_last()).push(piece@));
            assert(pieces@.drop_last() =~= pieces@.take(pieces@.len() - 1));
            assert(s@.subrange(start as int, i + 1) =~= Seq::<char>::empty());
        } else {
            assert(s@.subrange(start as int, i + 1) =~= s@.subrange(start as int, i as int).push(c));
        }
        proof {
            assert(text_views(pieces@).push(s@.subrange(start as int, i + 1)) =~= split_commas(
                s@.take(i + 1),
            ));
        }
        i = i + 1;
    }
    let last = s.substring_char(start, n).to_owned();
    let ghost before = pieces@;
    pieces.push(last);
    assert(text_views(pieces@) =~= text_views(before).push(last@));
    assert(s@.take(n as int) =~= s@);
    pieces
}


/// The search terms of a filter text.
fn terms_from(filter: &str) -> (r: Vec<String>)
    ensures
        text_views(r@) == terms_of(split_commas(filter@)),
{
    let pieces = split_at_commas(filter);
    let mut terms: Vec<String> = Vec::new();
    let mut i: usize = 0;
    assert(text_views(pieces@).take(0) =~= Seq::<Seq<char>>::empty());
    while i < pieces.len()
        invariant
            i <= pieces.len(),
            text_views(terms@) == terms_of(text_views(pieces@).take(i as int)),
        decreases pieces.len() - i,
    {
        let trimmed = trim(pieces[i].as_str());
        let t = lowercase(trimmed.as_str());
        let ghost views = text_views(pieces@);
        assert(views.take(i + 1).drop_last() =~= views.take(i as int));
        assert(views.take(i + 1).last() == pieces@[i as int]@);
        if t.as_str().unicode_len() > 0 {
            let ghost before = terms@;
            terms.push(t);
            assert(text_views(terms@) =~= text_views(before).push(t@));
        }
        i = i + 1;
    }
    assert(text_views(pieces@).take(pieces@.len() as int) =~= text_views(pieces@));
    terms
}

/// Whether `hay` holds one of `terms`.
pub fn contains_any(hay: &str, terms: &Vec<String>) -> (r: bool)
    ensures
        r == exists|k: int| 0 <= k < terms@.len() && contains_text(hay@, #[trigger] terms@[k]@),
{
    let mut k: usize = 0;
    while k < terms.len()
        invariant
            k <= terms.len(),
            forall|j: int| 0 <= j < k ==> !contains_text(hay@, #[trigger] terms@[j]@),
        decreases terms.len() - k,
    {
        if contains(hay, terms[k].as_str()) {
            return true;
        }
        k = k + 1;
    }
    false
}

/// Whether the lowercased project of `s` holds one of `terms`.
fn session_matches(s: &Session, terms: &Vec<String>) -> (r: bool)
    ensures
        r == matches_any(*s, text_views(terms@)),
{
    let project = match &s.project {
        Some(p) => lowercase(p.as_str()),
        None => lowercase(String::new().as_str()),
    };
    let r = contains_any(project.as_str(), terms);
    proof {
        let hay = lower_of(project_text(s.project));
        let views = text_views(terms@);
        if r {
            let k = choose|k: int|
                0 <= k < terms@.len() && contains_text(project@, #[trigger] terms@[k]@);
            assert(views[k] == terms@[k]@);
            assert(contains_text(hay, views[k]));
        } else {
            assert forall|k: int| 0 <= k < views.len() implies !contains_text(
                hay,
                #[trigger] views[k],
            ) by {
                assert(views[k] == terms@[k]@);
                if contains_text(hay, views[k]) {
                    assert(contains_text(project@, terms@[k]@));
                }
            }
        }
    }
    r
}

fn copy_session(s: &Session) -> (r: Session)
    ensures
        r == *s,
{
    Session { start: s.start, end: s.end, seconds: s.seconds, project: clone_project(&s.project) }
}

fn copy_day(d: &DaySessions) -> (r: DaySessions)
    ensures
        r@ == d@,
{
    let mut sessions: Vec<Session> = Vec::new();
    let mut j: usize = 0;
    while j < d.sessions.len()
        invariant
            j <= d.sessions.len(),
            sessions@ == d.sessions@.take(j as int),
        decreases d.sessions.len() - j,
    {
        sessions.push(copy_session(&d.sessions[j]));
        assert(sessions@ =~= d.sessions@.take(j + 1));
        j = j + 1;
    }
    assert(d.sessions@.take(d.sessions@.len() as int) =~= d.sessions@);
    DaySessions { date: d.date, sessions }
}

/// The sessions of `day` that match one of `terms`, in order.
fn matching_sessions(day: &DaySessions, terms: &Vec<String>) -> (r: Vec<Session>)
    ensures
        r@ == day.sessions@.filter(session_test(text_views(terms@))),
{
    let mut kept: Vec<Session> = Vec::new();
    let mut j: usize = 0;
    let ghost test = session_test(text_views(terms@));
    assert(day.sessions@.take(0) =~= Seq::<Session>::empty());
    proof {
        reveal(Seq::filter);
    }
    while j < day.sessions.len()
        invariant
            j <= day.sessions.len(),
            test == session_test(text_views(terms@)),
            kept@ == day.sessions@.take(j as int).filter(test),
        decreases day.sessions.len() - j,
    {
        let ghost prefix = day.sessions@.take(j + 1);
        assert(prefix.drop_last() =~= day.sessions@.take(j as int));
        assert(prefix.last() == day.sessions@[j as int]);
        proof {
            reveal(Seq::filter);
        }
        if session_matches(&day.sessions[j], terms) {
            kept.push(copy_session(&day.sessions[j]));
        }
        j = j + 1;
    }
    assert(day.sessions@.take(day.sessions@.len() as int) =~= day.sessions@);
    kept
}

/// Narrows days to the sessions whose project (lowercased; none counts as empty) holds one
/// of the comma-separated terms of `filter`, trimmed and lowercased. Days left without
/// sessions are dropped. Without a filter, or with one that has no terms, every day comes
/// back unchanged.
pub fn filter_sessions(days: &[DaySessions], filter: Option<&str>) -> (r: Vec<DaySessions>)
    ensures
        day_views(r@) == filtered_days(day_views(days@), opt_text(filter)),
{
    let terms: Vec<String> = match filter {
        Some(f) => if f.is_empty() {
            Vec::new()
        } else {
            terms_from(f)
        },
        None => Vec::new(),
    };
    let ghost tv = text_views(terms@);
    assert(tv == filter_terms(opt_text(filter)));
    let mut out: Vec<DaySessions> = Vec::new();
    let mut i: usize = 0;
    if terms.len() == 0 {
        while i < days.len()
            invariant
                i <= days@.len(),
                day_views(out@) == day_views(days@).take(i as int),
            decreases days.len() - i,
        {
            let d = copy_day(&days[i]);
            let ghost before = out@;
            out.push(d);
            assert(day_views(out@) =~= day_views(before).push(d@));
            assert(day_views(days@).take(i + 1) =~= day_views(days@).take(i as int).push(
                days@[i as int]@,
            ));
            i = i + 1;
        }
        assert(day_views(days@).take(days@.len() as int) =~= day_views(days@));
        return out;
    }
    let ghost keep = kept_day(tv);
    assert(day_views(days@).take(0).map_values(keep) =~= Seq::<(Date, Seq<Session>)>::empty());
    proof {
        reveal(Seq::filter);
    }
    while i < days.len()
        invariant
            i <= days@.len(),
            tv == text_views(terms@),
            keep == kept_day(tv),
            day_views(out@) == day_views(days@).take(i as int).map_values(keep).filter(
                has_sessions(),
            ),
        decreases days.len() - i,
    {
        let day = &days[i];
        let kept = matching_sessions(day, &terms);
        let ghost mapped = day_views(days@).take(i + 1).map_values(keep);
        assert(mapped.drop_last() =~= day_views(days@).take(i as int).map_values(keep));
        assert(mapped.last() == (day.date, kept@));
        proof {
            reveal(Seq::filter);
        }
        if kept.len() > 0 {
            let ghost before = out@;
            out.push(DaySessions { date: day.date, sessions: kept });
            assert(day_views(out@) =~= day_views(before).push((day.date, kept@)));
        }
        i = i + 1;
    }
    assert(day_views(days@).take(days@.len() as int) =~= day_views(days@));
    out
}


/// Without a filter, or with an empty one, every day comes back unchanged, days without
/// sessions included.
pub proof fn lemma_no_filter_keeps_all(days: Seq<(Date, Seq<Session>)>)
    ensures
        filtered_days(days, None) == days,
        filtered_days(days, Some(Seq::empty())) == days,
{
}

} // verus!
