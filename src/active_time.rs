use vstd::prelude::*;

verus! {

/// `s` with `x` in its place, unless `x` is there already.
pub open spec fn insert_distinct(s: Seq<i64>, x: i64) -> Seq<i64>
    decreases s.len(),
{
    if s.len() == 0 || s.last() < x {
        s.push(x)
    } else if s.last() == x {
        s
    } else {
        insert_distinct(s.drop_last(), x).push(s.last())
    }
}

/// The distinct values of `s` in increasing order.
pub open spec fn distinct_sorted(s: Seq<i64>) -> Seq<i64>
    decreases s.len(),
{
    if s.len() == 0 {
        s
    } else {
        insert_distinct(distinct_sorted(s.drop_last()), s.last())
    }
}

/// A gap from `a` to `b` counts when it is positive and at most `max_gap`.
pub open spec fn counted_gap(a: int, b: int, max_gap: int) -> int {
    if 0 < b - a <= max_gap {
        b - a
    } else {
        0
    }
}

/// The sum of the counted gaps between neighbours of `u`.
pub open spec fn gap_total(u: Seq<i64>, max_gap: int) -> int
    decreases u.len(),
{
    if u.len() < 2 {
        0
    } else {
        gap_total(u.drop_last(), max_gap) + counted_gap(u[u.len() - 2] as int, u.last() as int, max_gap)
    }
}

/// Active seconds of a set of times: over its distinct values in increasing order, the
/// gaps between neighbours that are at most `max_gap`.
pub open spec fn active_seconds(times: Seq<i64>, max_gap: int) -> int {
    gap_total(distinct_sorted(times), max_gap)
}

/// No two of `times` are further apart than an `i64` can count.
pub open spec fn spread_fits(times: Seq<i64>) -> bool {
    forall|i: int, j: int|
        0 <= i < times.len() && 0 <= j < times.len() ==> #[trigger] times[i] - #[trigger] times[j]
            <= i64::MAX
}

/// Each value is smaller than every later one.
pub open spec fn strictly_increasing(s: Seq<i64>) -> bool {
    forall|i: int, j: int| 0 <= i < j < s.len() ==> #[trigger] s[i] < #[trigger] s[j]
}

proof fn lemma_insert_distinct_at(s: Seq<i64>, x: i64, p: int)
    requires
        0 <= p <= s.len(),
        forall|k: int| p <= k < s.len() ==> #[trigger] s[k] > x,
        p == 0 || s[p - 1] <= x,
    ensures
        p > 0 && s[p - 1] == x ==> insert_distinct(s, x) == s,
        !(p > 0 && s[p - 1] == x) ==> insert_distinct(s, x) == s.insert(p, x),
    decreases s.len(),
{
    if p < s.len() {
        lemma_insert_distinct_at(s.drop_last(), x, p);
        if !(p > 0 && s[p - 1] == x) {
            assert(insert_distinct(s, x) =~= s.insert(p, x));
        } else {
            assert(insert_distinct(s, x) =~= s);
        }
    } else {
        assert(s.push(x) =~= s.insert(p, x));
    }
}

/// Active seconds of `times`: over the distinct values in increasing order, the sum of the
/// gaps between neighbours that are at most `max_gap`; a longer gap counts nothing.
pub fn estimate_seconds(times: &[i64], max_gap: i64) -> (r: i64)
    requires
        spread_fits(times@),
    ensures
        r == active_seconds(times@, max_gap as int),
{
    let mut u: Vec<i64> = Vec::new();
    let mut i: usize = 0;
    while i < times.len()
        invariant
            i <= times@.len(),
            u@ == distinct_sorted(times@.take(i as int)),
            strictly_increasing(u@),
            forall|k: int|
                0 <= k < u.len() ==> exists|j: int|
                    0 <= j < times@.len() && #[trigger] times@[j] == #[trigger] u@[k],
        decreases times.len() - i,
    {
        let x = times[i];
        assert(times@.take(i + 1).drop_last() =~= times@.take(i as int));
        let mut p = u.len();
        while p > 0 && u[p - 1] > x
            invariant
                p <= u.len(),
                forall|k: int| p <= k < u.len() ==> #[trigger] u[k] > x,
            decreases p,
        {
            p = p - 1;
        }
        let ghost before = u@;
        proof {
            lemma_insert_distinct_at(before, x, p as int);
        }
        if p == 0 || u[p - 1] != x {
            u.insert(p, x);
            assert forall|a: int, b: int| 0 <= a < b < u.len() implies #[trigger] u@[a]
                < #[trigger] u@[b] by {
                if a < p && b > p {
                    assert(before[a] <= before[p - 1]);
                }
            }
            assert forall|k: int| 0 <= k < u.len() implies exists|j: int|
                0 <= j < times@.len() && #[trigger] times@[j] == #[trigger] u@[k] by {
                if k < p {
                    assert(u@[k] == before[k]);
                } else if k > p {
                    assert(u@[k] == before[k - 1]);
                } else {
                    assert(times@[i as int] == u@[k]);
                }
            }
        }
        i = i + 1;
    }
    assert(times@.take(times@.len() as int) =~= times@);
    if u.len() < 2 {
        return 0;
    }
    let mut total: i128 = 0;
    let mut k: usize = 1;
    while k < u.len()
        invariant
            1 <= k <= u.len(),
            strictly_increasing(u@),
            total == gap_total(u@.take(k as int), max_gap as int),
            0 <= total <= u@[k - 1] - u@[0],
        decreases u.len() - k,
    {
        assert(u@.take(k + 1).drop_last() =~= u@.take(k as int));
        let gap: i128 = u[k] as i128 - u[k - 1] as i128;
        if gap > 0 && gap <= max_gap as i128 {
            total = total + gap;
        }
        k = k + 1;
    }
    assert(u@.take(u@.len() as int) =~= u@);
    let ghost last: int = u@.len() - 1;
    assert(exists|j: int| 0 <= j < times@.len() && times@[j] == u@[last]);
    assert(exists|j: int| 0 <= j < times@.len() && times@[j] == u@[0]);
    total as i64
}

/// The gap from the time before index `k` to the time at it is positive and at most `max_gap`.
pub open spec fn is_close_step(t: Seq<i64>, k: int, max_gap: int) -> bool {
    0 < t[k] - t[k - 1] <= max_gap
}

/// Times with small positive gaps between neighbours.
pub open spec fn is_close_run(t: Seq<i64>, max_gap: int) -> bool {
    forall|k: int| 0 < k < t.len() ==> #[trigger] is_close_step(t, k, max_gap)
}

proof fn lemma_distinct_sorted_of_increasing(t: Seq<i64>)
    requires
        strictly_increasing(t),
    ensures
        distinct_sorted(t) == t,
    decreases t.len(),
{
    if t.len() > 0 {
        let init = t.drop_last();
        assert(strictly_increasing(init));
        lemma_distinct_sorted_of_increasing(init);
        if init.len() > 0 {
            assert(init.last() < t.last());
        }
        assert(init.push(t.last()) =~= t);
    }
}

proof fn lemma_gap_total_of_close_run(t: Seq<i64>, max_gap: int)
    requires
        t.len() >= 1,
        is_close_run(t, max_gap),
    ensures
        gap_total(t, max_gap) == t.last() - t[0],
    decreases t.len(),
{
    if t.len() >= 2 {
        let init = t.drop_last();
        assert forall|k: int| 0 < k < init.len() implies #[trigger] is_close_step(init, k, max_gap) by {
            assert(is_close_step(t, k, max_gap));
        }
        lemma_gap_total_of_close_run(init, max_gap);
        assert(is_close_step(t, t.len() - 1, max_gap));
    }
}

/// The active seconds of a close run are its whole length.
pub proof fn lemma_close_run_active_seconds(t: Seq<i64>, max_gap: int)
    requires
        t.len() >= 1,
        is_close_run(t, max_gap),
    ensures
        active_seconds(t, max_gap) == t.last() - t[0],
{
    assert forall|i: int, j: int| 0 <= i < j < t.len() implies #[trigger] t[i] < #[trigger] t[j] by {
        lemma_close_run_increasing(t, max_gap, i, j);
    }
    lemma_distinct_sorted_of_increasing(t);
    lemma_gap_total_of_close_run(t, max_gap);
}

proof fn lemma_close_run_increasing(t: Seq<i64>, max_gap: int, i: int, j: int)
    requires
        is_close_run(t, max_gap),
        0 <= i < j < t.len(),
    ensures
        t[i] < t[j],
    decreases j - i,
{
    if j > i + 1 {
        lemma_close_run_increasing(t, max_gap, i, j - 1);
    }
    assert(is_close_step(t, j, max_gap));
}

/// The times of a close run increase.
pub(crate) proof fn lemma_close_run_increasing_all(t: Seq<i64>, max_gap: int)
    requires
        is_close_run(t, max_gap),
    ensures
        forall|i: int, j: int| 0 <= i <= j < t.len() ==> #[trigger] t[i] <= #[trigger] t[j],
{
    assert forall|i: int, j: int| 0 <= i <= j < t.len() implies #[trigger] t[i] <= #[trigger] t[j] by {
        if i < j {
            lemma_close_run_increasing(t, max_gap, i, j);
        }
    }
}

proof fn lemma_insert_distinct_facts(u: Seq<i64>, x: i64)
    requires
        strictly_increasing(u),
    ensures
        strictly_increasing(insert_distinct(u, x)),
        insert_distinct(u, x).contains(x),
        forall|y: i64| u.contains(y) ==> #[trigger] insert_distinct(u, x).contains(y),
        forall|y: i64| #[trigger] insert_distinct(u, x).contains(y) ==> y == x || u.contains(y),
        u.contains(x) ==> insert_distinct(u, x) == u,
    decreases u.len(),
{
    let r = insert_distinct(u, x);
    if u.len() == 0 || u.last() < x {
        assert(r == u.push(x));
        assert(r[u.len() as int] == x);
        assert forall|i: int, j: int| 0 <= i < j < r.len() implies #[trigger] r[i] < #[trigger] r[j] by {
            if j == u.len() {
                if i < u.len() - 1 {
                    assert(u[i] < u[u.len() - 1]);
                }
            } else {
                assert(r[i] == u[i] && r[j] == u[j]);
            }
        }
        assert forall|y: i64| u.contains(y) implies #[trigger] r.contains(y) by {
            let k = choose|k: int| 0 <= k < u.len() && u[k] == y;
            assert(r[k] == y);
        }
        assert forall|y: i64| #[trigger] r.contains(y) implies y == x || u.contains(y) by {
            let k = choose|k: int| 0 <= k < r.len() && r[k] == y;
            if k < u.len() {
                assert(u[k] == y);
            }
        }
        if u.contains(x) {
            let k = choose|k: int| 0 <= k < u.len() && u[k] == x;
            if k < u.len() - 1 {
                assert(u[k] < u[u.len() - 1]);
            }
        }
    } else if u.last() == x {
        assert(u[u.len() - 1] == x);
    } else {
        let init = u.drop_last();
        let last = u.last();
        assert(strictly_increasing(init));
        lemma_insert_distinct_facts(init, x);
        let r0 = insert_distinct(init, x);
        assert(r == r0.push(last));
        assert forall|k: int| 0 <= k < r0.len() implies #[trigger] r0[k] < last by {
            assert(r0.contains(r0[k]));
            if r0[k] != x {
                let m = choose|m: int| 0 <= m < init.len() && init[m] == r0[k];
                assert(u[m] < u[u.len() - 1]);
            }
        }
        assert forall|i: int, j: int| 0 <= i < j < r.len() implies #[trigger] r[i] < #[trigger] r[j] by {
            if j == r0.len() {
                assert(r0[i] < last);
            } else {
                assert(r[i] == r0[i] && r[j] == r0[j]);
            }
        }
        assert(r[r0.len() as int] == last);
        let kx = choose|k: int| 0 <= k < r0.len() && r0[k] == x;
        assert(r[kx] == x);
        assert forall|y: i64| u.contains(y) implies #[trigger] r.contains(y) by {
            let k = choose|k: int| 0 <= k < u.len() && u[k] == y;
            if k < init.len() {
                assert(init[k] == y);
                assert(init.contains(y));
                assert(r0.contains(y));
                let m = choose|m: int| 0 <= m < r0.len() && r0[m] == y;
                assert(r[m] == y);
            }
        }
        assert forall|y: i64| #[trigger] r.contains(y) implies y == x || u.contains(y) by {
            let k = choose|k: int| 0 <= k < r.len() && r[k] == y;
            if k < r0.len() {
                assert(r0[k] == y);
                assert(r0.contains(y));
                if y != x {
                    let m = choose|m: int| 0 <= m < init.len() && init[m] == y;
                    assert(u[m] == y);
                }
            } else {
                assert(u[u.len() - 1] == y);
            }
        }
        if u.contains(x) {
            let k = choose|k: int| 0 <= k < u.len() && u[k] == x;
            assert(k < init.len());
            assert(init[k] == x);
            assert(init.contains(x));
            assert(init.push(last) =~= u);
        }
    }
}

proof fn lemma_distinct_sorted_facts(s: Seq<i64>)
    ensures
        strictly_increasing(distinct_sorted(s)),
        forall|y: i64| s.contains(y) ==> #[trigger] distinct_sorted(s).contains(y),
    decreases s.len(),
{
    if s.len() > 0 {
        let init = s.drop_last();
        lemma_distinct_sorted_facts(init);
        lemma_insert_distinct_facts(distinct_sorted(init), s.last());
        assert forall|y: i64| s.contains(y) implies #[trigger] distinct_sorted(s).contains(y) by {
            let k = choose|k: int| 0 <= k < s.len() && s[k] == y;
            if k < init.len() {
                assert(init[k] == y);
                assert(init.contains(y));
            }
        }
    }
}

/// With fewer than two times there is no gap to count.
pub proof fn lemma_active_seconds_without_gap(times: Seq<i64>, max_gap: int)
    requires
        times.len() <= 1,
    ensures
        active_seconds(times, max_gap) == 0,
{
    if times.len() == 1 {
        let none = Seq::<i64>::empty();
        assert(times.drop_last() =~= none);
        assert(distinct_sorted(none) == none);
        assert(insert_distinct(none, times.last()) == none.push(times.last()));
        assert(distinct_sorted(times).len() == 1);
    }
}

/// A time that is already among the times adds nothing to their active seconds.
pub proof fn lemma_repeated_time_adds_nothing(times: Seq<i64>, x: i64, max_gap: int)
    requires
        times.contains(x),
    ensures
        active_seconds(times.push(x), max_gap) == active_seconds(times, max_gap),
{
    assert(times.push(x).drop_last() =~= times);
    lemma_distinct_sorted_facts(times);
    lemma_insert_distinct_facts(distinct_sorted(times), x);
}

/// Between two times, the gap counts in full when it is at most `max_gap`, and not at all
/// when it is longer.
pub proof fn lemma_single_gap(a: i64, b: i64, max_gap: int)
    requires
        a < b,
    ensures
        active_seconds(seq![a, b], max_gap) == (if b - a <= max_gap {
            b - a
        } else {
            0
        }),
{
    let t = seq![a, b];
    let one = seq![a];
    let none = Seq::<i64>::empty();
    assert(t.drop_last() =~= one);
    assert(one.drop_last() =~= none);
    assert(distinct_sorted(none) == none);
    assert(insert_distinct(none, a) =~= one);
    assert(distinct_sorted(one) == one);
    assert(insert_distinct(one, b) =~= t);
    assert(distinct_sorted(t) == t);
    assert(gap_total(one, max_gap) == 0);
}

} // verus!
