use std::collections::HashMap;
use vstd::prelude::*;

use crate::models::{ResponseInfo, StatsInfo};

verus! {

broadcast use vstd::std_specs::hash::group_hash_axioms;

/// Sum of the elapsed times of all answers.
pub open spec fn times_total(s: Seq<ResponseInfo>) -> int
    decreases s.len(),
{
    if s.len() == 0 {
        0
    } else {
        times_total(s.drop_last()) + s.last().time
    }
}

/// Smallest elapsed time, 0 for no answers.
pub open spec fn fastest(s: Seq<ResponseInfo>) -> int
    decreases s.len(),
{
    if s.len() == 0 {
        0
    } else {
        let rest = fastest(s.drop_last());
        if s.len() == 1 || s.last().time < rest {
            s.last().time as int
        } else {
            rest
        }
    }
}

/// Largest elapsed time, 0 for no answers.
pub open spec fn slowest(s: Seq<ResponseInfo>) -> int
    decreases s.len(),
{
    if s.len() == 0 {
        0
    } else {
        let rest = slowest(s.drop_last());
        if s.last().time > rest {
            s.last().time as int
        } else {
            rest
        }
    }
}

/// How many answers carry the status `code`.
pub open spec fn status_count(s: Seq<ResponseInfo>, code: u16) -> nat
    decreases s.len(),
{
    if s.len() == 0 {
        0
    } else {
        status_count(s.drop_last(), code) + if s.last().status == code {
            1nat
        } else {
            0nat
        }
    }
}

/// Each status code that occurs, mapped to the number of answers that carry it.
pub open spec fn status_counts(s: Seq<ResponseInfo>) -> Map<u16, u32> {
    Map::new(|c: u16| status_count(s, c) > 0, |c: u16| status_count(s, c) as u32)
}

/// The chart of a run: nothing for no answers; otherwise the origin followed by
/// `(i + 1, time of answer i)` for each answer `i`.
pub open spec fn chart_points(s: Seq<ResponseInfo>) -> Seq<(usize, u128)> {
    if s.len() == 0 {
        Seq::empty()
    } else {
        seq![(0usize, 0u128)] + Seq::new(s.len(), |i: int| ((i + 1) as usize, s[i].time))
    }
}

/// The inputs `calc_stats` can sum and count without overflow: the total of
/// the times fits in a `u128` and no status occurs more than `u32::MAX` times.
pub open spec fn stats_fit(s: Seq<ResponseInfo>) -> bool {
    &&& times_total(s) <= u128::MAX
    &&& forall|c: u16| #[trigger] status_count(s, c) <= u32::MAX
}

/// `stats` is what the statistics of the answers `s` are.
pub open spec fn stats_of(stats: StatsInfo, s: Seq<ResponseInfo>) -> bool {
    &&& stats.total_time == times_total(s)
    &&& stats.min_time == fastest(s)
    &&& stats.max_time == slowest(s)
    &&& stats.status_codes@ == status_counts(s)
    &&& stats.points@ == chart_points(s)
}

/// The chart of the answers: nothing for no answers; otherwise the origin,
/// then, for each answer `i`, the point `(i + 1, time of answer i)`.
pub proof fn lemma_chart_points(s: Seq<ResponseInfo>)
    ensures
        chart_points(s).len() == if s.len() == 0 {
            0
        } else {
            s.len() + 1
        },
        s.len() > 0 ==> chart_points(s)[0] == (0usize, 0u128),
        forall|i: int|
            0 <= i < s.len() ==> #[trigger] chart_points(s)[i + 1] == ((i + 1) as usize, s[i].time),
{
}

/// The count of a status code is the number of answers that carry it.
pub proof fn lemma_status_count_is_filter(s: Seq<ResponseInfo>, code: u16)
    ensures
        status_count(s, code) == s.filter(|r: ResponseInfo| r.status == code).len(),
    decreases s.len(),
{
    let keep = |r: ResponseInfo| r.status == code;
    if s.len() > 0 {
        lemma_status_count_is_filter(s.drop_last(), code);
        reveal(Seq::filter);
        assert(s.filter(keep) == if keep(s.last()) {
            s.drop_last().filter(keep).push(s.last())
        } else {
            s.drop_last().filter(keep)
        });
    }
}

/// The total time of one answer is its time, and no answer counts under a
/// status code other than its own.
pub proof fn lemma_single_answer(r: ResponseInfo)
    ensures
        times_total(seq![r]) == r.time,
        fastest(seq![r]) == r.time,
        slowest(seq![r]) == r.time,
        status_count(seq![r], r.status) == 1,
        forall|c: u16| c != r.status ==> #[trigger] status_count(seq![r], c) == 0,
{
    let s = seq![r];
    assert(s.drop_last() =~= Seq::<ResponseInfo>::empty());
    assert(s.last() == r);
    assert(times_total(s.drop_last()) == 0);
    assert(slowest(s.drop_last()) == 0);
    assert(fastest(s.drop_last()) == 0);
    assert forall|c: u16| #[trigger] status_count(s, c) == if r.status == c {
        1nat
    } else {
        0nat
    } by {
        assert(status_count(s.drop_last(), c) == 0);
    }
}

proof fn lemma_prefix_step(s: Seq<ResponseInfo>, i: int)
    requires
        0 <= i < s.len(),
    ensures
        s.take(i + 1).drop_last() == s.take(i),
        s.take(i + 1).last() == s[i],
{
    assert(s.take(i + 1).drop_last() =~= s.take(i));
}

proof fn lemma_total_prefix(s: Seq<ResponseInfo>, i: int)
    requires
        0 <= i <= s.len(),
    ensures
        times_total(s.take(i)) <= times_total(s),
    decreases s.len() - i,
{
    if i < s.len() {
        lemma_total_prefix(s, i + 1);
        lemma_prefix_step(s, i);
    } else {
        assert(s.take(i) =~= s);
    }
}

proof fn lemma_count_prefix(s: Seq<ResponseInfo>, i: int, c: u16)
    requires
        0 <= i <= s.len(),
    ensures
        status_count(s.take(i), c) <= status_count(s, c),
    decreases s.len() - i,
{
    if i < s.len() {
        lemma_count_prefix(s, i + 1, c);
        lemma_prefix_step(s, i);
    } else {
        assert(s.take(i) =~= s);
    }
}

/// Computes the statistics of the answered requests: the total, smallest and
/// largest elapsed time, how many answers carry each status code, and the
/// chart points.
pub fn calc_stats(successful_requests: &Vec<ResponseInfo>) -> (stats: StatsInfo)
    requires
        stats_fit(successful_requests@),
    ensures
        stats_of(stats, successful_requests@),
        stats.points@.len() == if successful_requests@.len() == 0 {
            0
        } else {
            successful_requests@.len() + 1
        },
        successful_requests@.len() > 0 ==> stats.points@[0] == (0usize, 0u128),
        forall|i: int|
            0 <= i < successful_requests@.len() ==> #[trigger] stats.points@[i + 1] == (
                (i + 1) as usize,
                successful_requests@[i].time,
            ),
{
    proof {
        lemma_chart_points(successful_requests@);
    }
    let ghost s = successful_requests@;
    if successful_requests.len() == 0 {
        let stats = StatsInfo {
            total_time: 0,
            max_time: 0,
            min_time: 0,
            status_codes: HashMap::new(),
            points: Vec::new(),
        };
        assert(stats.status_codes@ =~= status_counts(s));
        assert(stats.points@ =~= chart_points(s));
        return stats;
    }
    let mut total_time: u128 = 0;
    let mut min_time: u128 = 0;
    let mut max_time: u128 = 0;
    let mut status_codes: HashMap<u16, u32> = HashMap::new();
    let mut points: Vec<(usize, u128)> = Vec::new();
    points.push((0, 0));
    let n = successful_requests.len();
    assert(s.take(0) =~= Seq::<ResponseInfo>::empty());
    assert(status_codes@ =~= status_counts(s.take(0)));
    for i in 0..n
        invariant
            n == s.len(),
            s == successful_requests@,
            stats_fit(s),
            total_time == times_total(s.take(i as int)),
            min_time == fastest(s.take(i as int)),
            max_time == slowest(s.take(i as int)),
            status_codes@ == status_counts(s.take(i as int)),
            points@.len() == i + 1,
            points@[0] == (0usize, 0u128),
            forall|j: int| 0 <= j < i ==> #[trigger] points@[j + 1] == ((j + 1) as usize, s[j].time),
    {
        let request = &successful_requests[i];
        proof {
            lemma_prefix_step(s, i as int);
            lemma_total_prefix(s, i + 1);
            lemma_count_prefix(s, i + 1, request.status);
        }
        total_time = total_time + request.time;
        match status_codes.get(&request.status) {
            Some(value) => {
                let next: u32 = *value + 1;
                status_codes.insert(request.status, next);
            },
            None => {
                status_codes.insert(request.status, 1);
            },
        }
        assert(status_codes@ =~= status_counts(s.take(i + 1)));
        if i == 0 || request.time < min_time {
            min_time = request.time;
        }
        if request.time > max_time {
            max_time = request.time;
        }
        points.push((i + 1, request.time));
    }
    assert(s.take(n as int) =~= s);
    assert(points@ =~= chart_points(s)) by {
        assert forall|j: int| 0 <= j < points@.len() implies points@[j] == chart_points(s)[j] by {
            if j > 0 {
                assert(points@[(j - 1) + 1] == (((j - 1) + 1) as usize, s[j - 1].time));
            }
        }
    }
    StatsInfo { total_time, min_time, max_time, status_codes, points }
}

proof fn lemma_total_bounds(s: Seq<ResponseInfo>)
    ensures
        s.len() * fastest(s) <= times_total(s),
        times_total(s) <= s.len() * slowest(s),
        0 <= fastest(s),
        0 <= slowest(s),
    decreases s.len(),
{
    if s.len() > 0 {
        let d = s.drop_last();
        lemma_total_bounds(d);
        if d.len() > 0 {
            vstd::arithmetic::mul::lemma_mul_inequality(fastest(s), fastest(d), d.len() as int);
        }
        vstd::arithmetic::mul::lemma_mul_inequality(slowest(d), slowest(s), d.len() as int);
        assert(s.len() * fastest(s) == d.len() * fastest(s) + fastest(s)) by (nonlinear_arith)
            requires
                s.len() == d.len() + 1,
        ;
        assert(s.len() * slowest(s) == d.len() * slowest(s) + slowest(s)) by (nonlinear_arith)
            requires
                s.len() == d.len() + 1,
        ;
    }
}

/// Over any non-empty set of answers, the average elapsed time lies between
/// the smallest time and the largest one.
pub proof fn lemma_average_within(s: Seq<ResponseInfo>)
    requires
        s.len() > 0,
    ensures
        fastest(s) <= times_total(s) / (s.len() as int) <= slowest(s),
{
    lemma_total_bounds(s);
    let n = s.len() as int;
    let t = times_total(s);
    let lo = fastest(s);
    let hi = slowest(s);
    assert(lo <= t / n <= hi) by (nonlinear_arith)
        requires
            n > 0,
            n * lo <= t,
            t <= n * hi,
            0 <= lo,
    {
        vstd::arithmetic::div_mod::lemma_fundamental_div_mod(t, n);
    }
}

/// For answers, the smallest time is the time of one of them, and no answer
/// is faster; likewise the largest time is the time of one of them, and no
/// answer is slower.
pub proof fn lemma_extremes_are_times(s: Seq<ResponseInfo>)
    requires
        s.len() > 0,
    ensures
        exists|i: int| 0 <= i < s.len() && fastest(s) == s[i].time,
        forall|i: int| 0 <= i < s.len() ==> fastest(s) <= s[i].time,
        exists|i: int| 0 <= i < s.len() && slowest(s) == s[i].time,
        forall|i: int| 0 <= i < s.len() ==> s[i].time <= slowest(s),
    decreases s.len(),
{
    let d = s.drop_last();
    let n = s.len() - 1;
    if d.len() == 0 {
        assert(fastest(s) == s[0].time);
        assert(slowest(s) == s[0].time);
    } else {
        lemma_extremes_are_times(d);
        let i = choose|i: int| 0 <= i < d.len() && fastest(d) == d[i].time;
        let k = choose|k: int| 0 <= k < d.len() && slowest(d) == d[k].time;
        if s.last().time < fastest(d) {
            assert(fastest(s) == s[n].time);
        } else {
            assert(fastest(s) == s[i].time);
        }
        if s.last().time > slowest(d) {
            assert(slowest(s) == s[n].time);
        } else {
            assert(slowest(s) == s[k].time);
        }
        assert forall|j: int| 0 <= j < s.len() implies fastest(s) <= s[j].time && s[j].time
            <= slowest(s) by {
            if j < n {
                assert(s[j] == d[j]);
            }
        }
    }
}

proof fn lemma_concat_step(a: Seq<ResponseInfo>, b: Seq<ResponseInfo>)
    requires
        b.len() > 0,
    ensures
        (a + b).drop_last() == a + b.drop_last(),
        (a + b).last() == b.last(),
{
    assert((a + b).drop_last() =~= a + b.drop_last());
}

/// For two lists of answers put one after the other, with either one empty
/// or not: the times add up, the largest time is the larger of the two, and
/// each status code's count is the sum of its counts in the two lists.
pub proof fn lemma_sums_concat(a: Seq<ResponseInfo>, b: Seq<ResponseInfo>)
    ensures
        times_total(a + b) == times_total(a) + times_total(b),
        slowest(a + b) == if slowest(a) >= slowest(b) {
            slowest(a)
        } else {
            slowest(b)
        },
        forall|c: u16| #[trigger] status_count(a + b, c) == status_count(a, c) + status_count(b, c),
    decreases b.len(),
{
    if b.len() == 0 {
        assert(a + b =~= a);
        lemma_total_bounds(a);
        assert forall|c: u16| #[trigger] status_count(a + b, c) == status_count(a, c) + status_count(
            b,
            c,
        ) by {}
    } else {
        lemma_sums_concat(a, b.drop_last());
        lemma_concat_step(a, b);
        assert forall|c: u16| #[trigger] status_count(a + b, c) == status_count(a, c) + status_count(
            b,
            c,
        ) by {
            assert(status_count(a + b.drop_last(), c) == status_count(a, c) + status_count(
                b.drop_last(),
                c,
            ));
        }
    }
}

proof fn lemma_fastest_concat(a: Seq<ResponseInfo>, b: Seq<ResponseInfo>)
    requires
        a.len() > 0,
        b.len() > 0,
    ensures
        fastest(a + b) == if fastest(a) <= fastest(b) {
            fastest(a)
        } else {
            fastest(b)
        },
    decreases b.len(),
{
    lemma_concat_step(a, b);
    if b.len() == 1 {
        assert(a + b.drop_last() =~= a);
    } else {
        lemma_fastest_concat(a, b.drop_last());
    }
}

/// The statistics of two lists of answers put one after the other: the times
/// add up, the smallest and largest times are those of the two lists, and the
/// count of each status code is the sum of its counts in the two lists.
pub proof fn lemma_stats_concat(a: Seq<ResponseInfo>, b: Seq<ResponseInfo>)
    requires
        a.len() > 0,
        b.len() > 0,
    ensures
        times_total(a + b) == times_total(a) + times_total(b),
        fastest(a + b) == if fastest(a) <= fastest(b) {
            fastest(a)
        } else {
            fastest(b)
        },
        slowest(a + b) == if slowest(a) >= slowest(b) {
            slowest(a)
        } else {
            slowest(b)
        },
        forall|c: u16| #[trigger] status_count(a + b, c) == status_count(a, c) + status_count(b, c),
        chart_points(a + b).len() == chart_points(a).len() + chart_points(b).len() - 1,
{
    lemma_sums_concat(a, b);
    lemma_fastest_concat(a, b);
}

proof fn lemma_sums_remove(s: Seq<ResponseInfo>, j: int)
    requires
        0 <= j < s.len(),
    ensures
        times_total(s) == times_total(s.remove(j)) + s[j].time,
        forall|c: u16|
            #[trigger] status_count(s, c) == status_count(s.remove(j), c) + if s[j].status == c {
                1nat
            } else {
                0nat
            },
{
    let p = s.take(j);
    let q = s.skip(j + 1);
    let x = seq![s[j]];
    assert(s =~= p + (x + q));
    assert(s.remove(j) =~= p + q);
    assert(x.drop_last() =~= Seq::<ResponseInfo>::empty());
    assert(x.len() == 1 && x.last() == s[j]);
    assert(times_total(x.drop_last()) == 0);
    assert(times_total(x) == s[j].time);
    lemma_sums_concat(p, x + q);
    lemma_sums_concat(x, q);
    lemma_sums_concat(p, q);
    assert forall|c: u16|
        #[trigger] status_count(s, c) == status_count(s.remove(j), c) + if s[j].status == c {
            1nat
        } else {
            0nat
        } by {
        assert(status_count(x.drop_last(), c) == 0);
        assert(status_count(x, c) == if s[j].status == c {
            1nat
        } else {
            0nat
        });
        assert(status_count(p + (x + q), c) == status_count(p, c) + status_count(x + q, c));
        assert(status_count(x + q, c) == status_count(x, c) + status_count(q, c));
        assert(status_count(p + q, c) == status_count(p, c) + status_count(q, c));
    }
}

proof fn lemma_sums_permutation(a: Seq<ResponseInfo>, b: Seq<ResponseInfo>)
    requires
        a.to_multiset() == b.to_multiset(),
    ensures
        times_total(a) == times_total(b),
        forall|c: u16| #[trigger] status_count(a, c) == status_count(b, c),
    decreases a.len(),
{
    broadcast use vstd::seq_lib::group_to_multiset_ensures;
    broadcast use vstd::multiset::group_multiset_axioms;

    assert(a.len() == a.to_multiset().len());
    assert(b.len() == b.to_multiset().len());
    if a.len() == 0 {
        assert(b =~= a);
    } else {
        let d = a.drop_last();
        let x = a.last();
        assert(a =~= d.push(x));
        assert(b.to_multiset().count(x) > 0);
        assert(b.contains(x));
        let j = choose|j: int| 0 <= j < b.len() && b[j] == x;
        assert(b.remove(j).to_multiset() =~= d.to_multiset());
        lemma_sums_permutation(d, b.remove(j));
        lemma_sums_remove(b, j);
        assert forall|c: u16| #[trigger] status_count(a, c) == status_count(b, c) by {
            assert(status_count(d, c) == status_count(b.remove(j), c));
        }
    }
}

/// The statistics do not depend on the order of the answers: two lists that
/// hold the same answers, each as many times, have the same total, smallest
/// and largest time, status-code counts and number of chart points.
pub proof fn lemma_stats_permutation(a: Seq<ResponseInfo>, b: Seq<ResponseInfo>)
    requires
        a.to_multiset() == b.to_multiset(),
    ensures
        times_total(a) == times_total(b),
        fastest(a) == fastest(b),
        slowest(a) == slowest(b),
        status_counts(a) == status_counts(b),
        chart_points(a).len() == chart_points(b).len(),
{
    broadcast use vstd::seq_lib::group_to_multiset_ensures;

    lemma_sums_permutation(a, b);
    assert(status_counts(a) =~= status_counts(b));
    assert(a.len() == a.to_multiset().len());
    assert(b.len() == b.to_multiset().len());
    if a.len() > 0 {
        lemma_extremes_are_times(a);
        lemma_extremes_are_times(b);
        let i = choose|i: int| 0 <= i < a.len() && fastest(a) == a[i].time;
        let k = choose|k: int| 0 <= k < a.len() && slowest(a) == a[k].time;
        let i2 = choose|i: int| 0 <= i < b.len() && fastest(b) == b[i].time;
        let k2 = choose|k: int| 0 <= k < b.len() && slowest(b) == b[k].time;
        assert(a.to_multiset().count(a[i]) > 0);
        assert(a.to_multiset().count(a[k]) > 0);
        assert(b.to_multiset().count(b[i2]) > 0);
        assert(b.to_multiset().count(b[k2]) > 0);
        assert(b.contains(a[i]));
        assert(b.contains(a[k]));
        assert(a.contains(b[i2]));
        assert(a.contains(b[k2]));
    }
}

/// The answers whose status code is below `k`, counted code by code.
pub open spec fn counted_below(s: Seq<ResponseInfo>, k: int) -> nat
    decreases k,
{
    if k <= 0 {
        0
    } else {
        counted_below(s, k - 1) + status_count(s, (k - 1) as u16)
    }
}

proof fn lemma_counted_below_last(s: Seq<ResponseInfo>, k: int)
    requires
        s.len() > 0,
        0 <= k <= 0x10000,
    ensures
        counted_below(s, k) == counted_below(s.drop_last(), k) + if (s.last().status as int) < k {
            1nat
        } else {
            0nat
        },
    decreases k,
{
    if k > 0 {
        lemma_counted_below_last(s, k - 1);
    }
}

/// Every answer is counted under exactly one status code: summed over all
/// codes, the counts make the number of answers.
pub proof fn lemma_status_counts_cover(s: Seq<ResponseInfo>)
    ensures
        counted_below(s, 0x10000) == s.len(),
    decreases s.len(),
{
    if s.len() == 0 {
        lemma_counted_below_empty(s, 0x10000);
    } else {
        lemma_counted_below_last(s, 0x10000);
        lemma_status_counts_cover(s.drop_last());
    }
}

proof fn lemma_counted_below_empty(s: Seq<ResponseInfo>, k: int)
    requires
        s.len() == 0,
    ensures
        counted_below(s, k) == 0,
    decreases k,
{
    if k > 0 {
        lemma_counted_below_empty(s, k - 1);
    }
}

/// Tells whether the statistics of `responses` can be computed without
/// overflow: whether `stats_fit` holds of them.
pub fn fits(responses: &Vec<ResponseInfo>) -> (b: bool)
    ensures
        b == stats_fit(responses@),
        b <==> times_total(responses@) <= u128::MAX && forall|c: u16|
            #[trigger] status_count(responses@, c) <= u32::MAX,
{
    let ghost s = responses@;
    let n = responses.len();
    let mut total: u128 = 0;
    let mut overflow = false;
    let mut counts: Vec<u64> = Vec::new();
    for c in 0..0x10000usize
        invariant
            counts@.len() == c,
            forall|k: int| 0 <= k < c ==> counts@[k] == 0,
    {
        counts.push(0);
    }
    assert(s.take(0) =~= Seq::<ResponseInfo>::empty());
    for i in 0..n
        invariant
            n == s.len(),
            s == responses@,
            counts@.len() == 0x10000,
            !overflow ==> total == times_total(s.take(i as int)),
            overflow ==> times_total(s.take(i as int)) > u128::MAX,
            forall|k: int| 0 <= k < 0x10000 ==> #[trigger] counts@[k] == status_count(s.take(i as int), k as u16),
            forall|k: int| 0 <= k < 0x10000 ==> #[trigger] counts@[k] <= i,
    {
        let r = &responses[i];
        proof {
            lemma_prefix_step(s, i as int);
        }
        if !overflow {
            match total.checked_add(r.time) {
                Some(x) => {
                    total = x;
                },
                None => {
                    overflow = true;
                },
            }
        }
        let k = r.status as usize;
        let old_count = counts[k];
        counts.set(k, old_count + 1);
        assert forall|j: int| 0 <= j < 0x10000 implies #[trigger] counts@[j] == status_count(
            s.take(i + 1),
            j as u16,
        ) by {
            assert(j as u16 as int == j);
        }
    }
    assert(s.take(n as int) =~= s);
    if overflow {
        return false;
    }
    for c in 0..0x10000usize
        invariant
            n == s.len(),
            s == responses@,
            counts@.len() == 0x10000,
            forall|k: int| 0 <= k < 0x10000 ==> #[trigger] counts@[k] == status_count(s, k as u16),
            forall|k: int| 0 <= k < c ==> #[trigger] status_count(s, k as u16) <= u32::MAX,
    {
        if counts[c] > 0xffff_ffffu64 {
            assert(status_count(s, c as u16) > u32::MAX);
            return false;
        }
    }
    assert forall|code: u16| #[trigger] status_count(s, code) <= u32::MAX by {
        assert(status_count(s, (code as int) as u16) <= u32::MAX);
    }
    true
}

/// The figures reported at the end of a load test with at least one answer.
pub struct Report {
    /// How many requests got an answer.
    pub successful: usize,
    /// The statistics of the answers.
    pub stats: StatsInfo,
    /// The average elapsed time, in whole milliseconds (rounded down).
    pub average_time: u128,
}

/// The final report over the answered requests: `None` when no request got
/// an answer; otherwise their count, their statistics and their average time.
pub fn summarize(successful_requests: &Vec<ResponseInfo>) -> (r: Option<Report>)
    requires
        stats_fit(successful_requests@),
    ensures
        r is None <==> successful_requests@.len() == 0,
        r matches Some(report) ==> {
            &&& report.successful == successful_requests@.len()
            &&& stats_of(report.stats, successful_requests@)
            &&& report.average_time == times_total(successful_requests@)
                / (successful_requests@.len() as int)
            &&& report.stats.min_time <= report.average_time <= report.stats.max_time
        },
{
    let successful = successful_requests.len();
    if successful == 0 {
        return None;
    }
    let stats = calc_stats(successful_requests);
    let average_time = stats.total_time / (successful as u128);
    proof {
        lemma_average_within(successful_requests@);
    }
    Some(Report { successful, stats, average_time })
}

} // verus!
