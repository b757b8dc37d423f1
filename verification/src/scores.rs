use vstd::prelude::*;
use crate::game::abs;
use crate::ranking::{is_ranking, key_values, rank_descending};

verus! {

/// The characters of each string.
pub open spec fn string_views(v: Seq<String>) -> Seq<Seq<char>> {
    Seq::new(v.len(), |i: int| v[i]@)
}

/// The names in order of first occurrence, each once.
pub open spec fn distinct_names(names: Seq<Seq<char>>) -> Seq<Seq<char>>
    decreases names.len(),
{
    if names.len() == 0 {
        Seq::empty()
    } else {
        let d = distinct_names(names.drop_last());
        if d.contains(names.last()) {
            d
        } else {
            d.push(names.last())
        }
    }
}

/// `distinct_names` holds each name of the sequence once, and nothing else.
pub proof fn lemma_distinct_names(names: Seq<Seq<char>>)
    ensures
        distinct_names(names).no_duplicates(),
        forall|k: int| 0 <= k < names.len() ==> distinct_names(names).contains(#[trigger] names[k]),
        forall|x: Seq<char>| distinct_names(names).contains(x) ==> names.contains(x),
    decreases names.len(),
{
    if names.len() > 0 {
        let prev = names.drop_last();
        lemma_distinct_names(prev);
        let d = distinct_names(prev);
        assert forall|k: int| 0 <= k < names.len() implies distinct_names(names).contains(
            #[trigger] names[k],
        ) by {
            if k < names.len() - 1 {
                assert(prev[k] == names[k]);
                assert(d.contains(prev[k]));
                if !d.contains(names.last()) {
                    let j = choose|j: int| 0 <= j < d.len() && d[j] == prev[k];
                    assert(d.push(names.last())[j] == names[k]);
                }
            } else if !d.contains(names.last()) {
                assert(d.push(names.last())[d.len() as int] == names.last());
            }
        }
        assert forall|x: Seq<char>| distinct_names(names).contains(x) implies names.contains(x) by {
            if d.contains(x) {
                assert(prev.contains(x));
                let j = choose|j: int| 0 <= j < prev.len() && prev[j] == x;
                assert(names[j] == x);
            } else {
                assert(x == names.last());
                assert(names[names.len() - 1] == x);
            }
        }
        if !d.contains(names.last()) {
            let e = d.push(names.last());
            assert forall|i: int, j: int| 0 <= i < e.len() && 0 <= j < e.len() && i != j implies e[i]
                != e[j] by {
                if i < d.len() && j < d.len() {
                } else if i == d.len() {
                    assert(e[j] == d[j]);
                } else {
                    assert(e[i] == d[i]);
                }
            }
        }
    }
}

/// There are no more distinct names than names.
pub proof fn lemma_distinct_names_len(names: Seq<Seq<char>>)
    ensures
        distinct_names(names).len() <= names.len(),
    decreases names.len(),
{
    if names.len() > 0 {
        lemma_distinct_names_len(names.drop_last());
    }
}

/// Where `name` first occurs among `keys`, if it does.
pub fn find_name(keys: &Vec<String>, name: &String) -> (r: Option<usize>)
    ensures
        match r {
            Some(j) => j < keys@.len() && keys@[j as int]@ == name@ && forall|m: int|
                0 <= m < j ==> keys@[m]@ != name@,
            None => !string_views(keys@).contains(name@),
        },
{
    let n = keys.len();
    for j in 0..n
        invariant
            n == keys@.len(),
            forall|m: int| 0 <= m < j ==> keys@[m]@ != name@,
    {
        if keys[j] == *name {
            return Some(j);
        }
    }
    assert forall|m: int| 0 <= m < n implies string_views(keys@)[m] != name@ by {}
    None
}

/// The names without repetitions, in order of first occurrence.
pub fn distinct_strings(names: &Vec<String>) -> (r: Vec<String>)
    ensures
        string_views(r@) == distinct_names(string_views(names@)),
{
    let n = names.len();
    let mut out: Vec<String> = Vec::new();
    for k in 0..n
        invariant
            n == names@.len(),
            string_views(out@) == distinct_names(string_views(names@).take(k as int)),
    {
        let ghost prefix = string_views(names@).take(k as int);
        let ghost next = string_views(names@).take(k + 1);
        assert(next.drop_last() =~= prefix);
        assert(next.last() == names@[k as int]@);
        match find_name(&out, &names[k]) {
            Some(j) => {
                assert(string_views(out@)[j as int] == names@[k as int]@);
            },
            None => {
                out.push(names[k].clone());
                assert(string_views(out@) =~= distinct_names(prefix).push(names@[k as int]@));
            },
        }
    }
    assert(string_views(names@).take(n as int) =~= string_views(names@));
    out
}

/// The outcome of a match inside a tournament: the indices of the two
/// players and what each earned.
pub type MatchScore = (usize, usize, i32, i32);

/// What the player named `x` earned over the matches: the first score of
/// every match it played first in, and the second score of every match it
/// played second in against another player (a match against itself counts
/// once).
pub open spec fn earned(names: Seq<Seq<char>>, results: Seq<MatchScore>, x: Seq<char>) -> int
    decreases results.len(),
{
    if results.len() == 0 {
        0
    } else {
        let (i, j, a, b) = results.last();
        earned(names, results.drop_last(), x) + (if names[i as int] == x {
            a as int
        } else {
            0
        }) + (if i != j && names[j as int] == x {
            b as int
        } else {
            0
        })
    }
}

/// What the player named `x` can have earned at most over the matches: the
/// same scores as `earned`, in absolute value.
pub open spec fn earned_abs(names: Seq<Seq<char>>, results: Seq<MatchScore>, x: Seq<char>) -> int
    decreases results.len(),
{
    if results.len() == 0 {
        0
    } else {
        let (i, j, a, b) = results.last();
        earned_abs(names, results.drop_last(), x) + (if names[i as int] == x {
            abs(a as int)
        } else {
            0
        }) + (if i != j && names[j as int] == x {
            abs(b as int)
        } else {
            0
        })
    }
}

/// How many scores of the matches `pairs` go to the name `x`: one for each
/// match it plays first in, one for each it plays second in against
/// another player.
pub open spec fn appearances(names: Seq<Seq<char>>, pairs: Seq<(usize, usize)>, x: Seq<char>) -> int
    decreases pairs.len(),
{
    if pairs.len() == 0 {
        0
    } else {
        let (i, j) = pairs.last();
        appearances(names, pairs.drop_last(), x) + (if names[i as int] == x { 1int } else { 0int }) + (
        if i != j && names[j as int] == x {
            1int
        } else {
            0int
        })
    }
}

/// The players of each match.
pub open spec fn match_pairs(results: Seq<MatchScore>) -> Seq<(usize, usize)> {
    Seq::new(results.len(), |k: int| (results[k].0, results[k].1))
}

/// When every score is within `bound`, a name earns at most `bound` per
/// score it takes.
pub proof fn lemma_earned_abs_bounded(
    names: Seq<Seq<char>>,
    results: Seq<MatchScore>,
    x: Seq<char>,
    bound: int,
)
    requires
        bound >= 0,
        forall|k: int|
            0 <= k < results.len() ==> abs((#[trigger] results[k]).2 as int) <= bound && abs(
                results[k].3 as int,
            ) <= bound,
    ensures
        earned_abs(names, results, x) <= appearances(names, match_pairs(results), x) * bound,
    decreases results.len(),
{
    if results.len() > 0 {
        let p = results.drop_last();
        assert forall|k: int| 0 <= k < p.len() implies abs((#[trigger] p[k]).2 as int) <= bound && abs(
            p[k].3 as int,
        ) <= bound by {
            assert(p[k] == results[k]);
        }
        lemma_earned_abs_bounded(names, p, x, bound);
        assert(match_pairs(results).drop_last() =~= match_pairs(p));
        assert(results[results.len() - 1] == results.last());
        assert(match_pairs(results).last() == (results.last().0, results.last().1));
        assert(abs(results.last().2 as int) <= bound && abs(results.last().3 as int) <= bound);
        let c = appearances(names, match_pairs(p), x);
        let (i, j, a, b) = results.last();
        let first = names[i as int] == x;
        let second = i != j && names[j as int] == x;
        assert(appearances(names, match_pairs(results), x) == c + (if first { 1int } else { 0int }) + (
        if second {
            1int
        } else {
            0int
        }));
        assert(earned_abs(names, results, x) == earned_abs(names, p, x) + (if first {
            abs(a as int)
        } else {
            0
        }) + (if second {
            abs(b as int)
        } else {
            0
        }));
        if first && second {
            assert((c + 2) * bound == c * bound + 2 * bound) by (nonlinear_arith);
        } else if first || second {
            assert((c + 1) * bound == c * bound + bound) by (nonlinear_arith);
        }
    }
}

proof fn lemma_earned_within(names: Seq<Seq<char>>, results: Seq<MatchScore>, x: Seq<char>)
    ensures
        -earned_abs(names, results, x) <= earned(names, results, x) <= earned_abs(names, results, x),
    decreases results.len(),
{
    if results.len() > 0 {
        lemma_earned_within(names, results.drop_last(), x);
    }
}

proof fn lemma_earned_abs_prefix(names: Seq<Seq<char>>, results: Seq<MatchScore>, x: Seq<char>, t: int)
    requires
        0 <= t <= results.len(),
    ensures
        0 <= earned_abs(names, results.take(t), x) <= earned_abs(names, results, x),
    decreases results.len() - t,
{
    if t < results.len() {
        lemma_earned_abs_prefix(names, results, x, t + 1);
        let a = results.take(t + 1);
        assert(a.drop_last() =~= results.take(t));
        lemma_earned_abs_nonneg(names, results.take(t), x);
    } else {
        assert(results.take(t) =~= results);
        lemma_earned_abs_nonneg(names, results, x);
    }
}

proof fn lemma_earned_abs_nonneg(names: Seq<Seq<char>>, results: Seq<MatchScore>, x: Seq<char>)
    ensures
        earned_abs(names, results, x) >= 0,
    decreases results.len(),
{
    if results.len() > 0 {
        lemma_earned_abs_nonneg(names, results.drop_last(), x);
    }
}

/// Every match refers to players among `n`.
pub open spec fn players_within(results: Seq<MatchScore>, n: nat) -> bool {
    forall|k: int| 0 <= k < results.len() ==> (#[trigger] results[k]).0 < n && results[k].1 < n
}

/// `r` lists each distinct name once, in order of first occurrence, with
/// what that name earned over the matches.
pub open spec fn is_tally(names: Seq<Seq<char>>, results: Seq<MatchScore>, r: Seq<(String, i32)>) -> bool {
    &&& r.len() == distinct_names(names).len()
    &&& forall|k: int|
        0 <= k < r.len() ==> (#[trigger] r[k]).0@ == distinct_names(names)[k] && r[k].1 as int
            == earned(names, results, distinct_names(names)[k])
}

/// Adds up the matches' scores per name. Names are listed once each, in
/// order of first occurrence; a strategy that played itself is paid once
/// for that match.
pub fn tally_scores(names: &Vec<String>, results: &Vec<MatchScore>) -> (r: Vec<(String, i32)>)
    requires
        players_within(results@, names@.len()),
        forall|x: Seq<char>| #[trigger] earned_abs(string_views(names@), results@, x) <= i32::MAX,
    ensures
        is_tally(string_views(names@), results@, r@),
{
    let ghost views = string_views(names@);
    let keys = distinct_strings(names);
    let ghost d = distinct_names(views);
    proof {
        lemma_distinct_names(views);
    }
    // slot[k]: where the k-th name stands among the distinct names.
    let n = names.len();
    let mut slot: Vec<usize> = Vec::new();
    for k in 0..n
        invariant
            n == names@.len(),
            views == string_views(names@),
            d == distinct_names(views),
            string_views(keys@) == d,
            forall|i: int| 0 <= i < views.len() ==> d.contains(#[trigger] views[i]),
            slot@.len() == k,
            forall|i: int|
                0 <= i < k ==> #[trigger] slot@[i] < keys@.len() && d[slot@[i] as int] == views[i],
    {
        assert(d.contains(views[k as int]));
        match find_name(&keys, &names[k]) {
            Some(j) => {
                assert(d[j as int] == keys@[j as int]@);
                slot.push(j);
            },
            None => {
                assert(false);
                slot.push(0);
            },
        }
    }
    let m = keys.len();
    let mut totals: Vec<i32> = Vec::new();
    for q in 0..m
        invariant
            totals@.len() == q,
            forall|i: int| 0 <= i < q ==> totals@[i] == 0,
    {
        totals.push(0);
    }
    let rn = results.len();
    for t in 0..rn
        invariant
            rn == results@.len(),
            n == names@.len(),
            m == keys@.len(),
            views == string_views(names@),
            d == distinct_names(views),
            string_views(keys@) == d,
            d.no_duplicates(),
            players_within(results@, names@.len()),
            forall|x: Seq<char>| #[trigger] earned_abs(views, results@, x) <= i32::MAX,
            slot@.len() == n,
            forall|i: int| 0 <= i < n ==> #[trigger] slot@[i] < m && d[slot@[i] as int] == views[i],
            totals@.len() == m,
            forall|q: int|
                0 <= q < m ==> #[trigger] totals@[q] as int == earned(views, results@.take(t as int), d[q]),
    {
        let (i, j, a, b) = results[t];
        let ghost before = results@.take(t as int);
        let ghost after = results@.take(t + 1);
        assert(after.drop_last() =~= before);
        assert(after.last() == results@[t as int]);
        assert(results@[t as int].0 < n && results@[t as int].1 < n);
        proof {
            assert forall|q: int| 0 <= q < m implies -i32::MAX <= #[trigger] earned(views, after, d[q])
                <= i32::MAX by {
                lemma_earned_within(views, after, d[q]);
                lemma_earned_abs_prefix(views, results@, d[q], t + 1);
                assert(earned_abs(views, results@, d[q]) <= i32::MAX);
            }
            let xi = d[slot@[i as int] as int];
            lemma_earned_within(views, before, xi);
            lemma_earned_abs_prefix(views, results@, xi, t + 1);
            assert(earned_abs(views, after, xi) == earned_abs(views, before, xi) + abs(a as int) + (if i
                != j && views[j as int] == xi {
                abs(b as int)
            } else {
                0
            }));
            lemma_earned_abs_nonneg(views, before, xi);
        }
        let si = slot[i];
        let old_i = totals[si];
        totals.set(si, old_i + a);
        if i != j {
            let sj = slot[j];
            proof {
                let xj = d[sj as int];
                lemma_earned_within(views, before, xj);
                lemma_earned_abs_prefix(views, results@, xj, t + 1);
                lemma_earned_abs_nonneg(views, before, xj);
                assert(earned_abs(views, after, xj) == earned_abs(views, before, xj) + (if views[i as int]
                    == xj {
                    abs(a as int)
                } else {
                    0
                }) + abs(b as int));
                if sj == si {
                    assert(views[i as int] == xj);
                }
            }
            let old_j = totals[sj];
            totals.set(sj, old_j + b);
        }
        assert forall|q: int| 0 <= q < m implies #[trigger] totals@[q] as int == earned(
            views,
            after,
            d[q],
        ) by {
            let x = d[q];
            if views[i as int] == x {
                assert(q == slot@[i as int]);
            }
            if i != j && views[j as int] == x {
                assert(q == slot@[j as int]);
            }
        }
    }
    assert(results@.take(rn as int) =~= results@);
    let mut out: Vec<(String, i32)> = Vec::new();
    for q in 0..m
        invariant
            m == keys@.len(),
            totals@.len() == m,
            string_views(keys@) == d,
            out@.len() == q,
            forall|k: int|
                0 <= k < q ==> (#[trigger] out@[k]).0@ == d[k] && out@[k].1 as int == earned(views, results@, d[k]),
            forall|k: int| 0 <= k < m ==> #[trigger] totals@[k] as int == earned(views, results@, d[k]),
    {
        assert(keys@[q as int]@ == d[q as int]);
        out.push((keys[q].clone(), totals[q]));
    }
    out
}

/// What the matches paid out in all: both scores of every match, and one
/// score of a match of a player against itself.
pub open spec fn paid_out(results: Seq<MatchScore>) -> int
    decreases results.len(),
{
    if results.len() == 0 {
        0
    } else {
        let (i, j, a, b) = results.last();
        paid_out(results.drop_last()) + a + (if i != j { b as int } else { 0 })
    }
}

/// The sum of the scores of a tally.
pub open spec fn sum_scores(r: Seq<(String, i32)>) -> int
    decreases r.len(),
{
    if r.len() == 0 {
        0
    } else {
        sum_scores(r.drop_last()) + r.last().1
    }
}

/// What the names of `d` earned, together.
pub open spec fn total_earned(d: Seq<Seq<char>>, names: Seq<Seq<char>>, results: Seq<MatchScore>) -> int
    decreases d.len(),
{
    if d.len() == 0 {
        0
    } else {
        total_earned(d.drop_last(), names, results) + earned(names, results, d.last())
    }
}

/// `c` counted once for each name of `d` equal to `y`.
pub open spec fn indicator_sum(d: Seq<Seq<char>>, y: Seq<char>, c: int) -> int
    decreases d.len(),
{
    if d.len() == 0 {
        0
    } else {
        indicator_sum(d.drop_last(), y, c) + (if d.last() == y { c } else { 0 })
    }
}

proof fn lemma_indicator_absent(d: Seq<Seq<char>>, y: Seq<char>, c: int)
    requires
        !d.contains(y),
    ensures
        indicator_sum(d, y, c) == 0,
    decreases d.len(),
{
    if d.len() > 0 {
        assert(!d.drop_last().contains(y)) by {
            if d.drop_last().contains(y) {
                let k = choose|k: int| 0 <= k < d.drop_last().len() && d.drop_last()[k] == y;
                assert(d[k] == y);
            }
        }
        lemma_indicator_absent(d.drop_last(), y, c);
        assert(d[d.len() - 1] == d.last());
    }
}

proof fn lemma_indicator_once(d: Seq<Seq<char>>, y: Seq<char>, c: int)
    requires
        d.no_duplicates(),
        d.contains(y),
    ensures
        indicator_sum(d, y, c) == c,
    decreases d.len(),
{
    let p = d.drop_last();
    if d.last() == y {
        assert(!p.contains(y)) by {
            if p.contains(y) {
                let k = choose|k: int| 0 <= k < p.len() && p[k] == y;
                assert(d[k] == d[d.len() - 1]);
            }
        }
        lemma_indicator_absent(p, y, c);
    } else {
        let k = choose|k: int| 0 <= k < d.len() && d[k] == y;
        assert(k != d.len() - 1);
        assert(p[k] == y);
        lemma_indicator_once(p, y, c);
    }
}

proof fn lemma_total_earned_step(d: Seq<Seq<char>>, names: Seq<Seq<char>>, results: Seq<MatchScore>)
    requires
        results.len() > 0,
    ensures
        ({
            let (i, j, a, b) = results.last();
            total_earned(d, names, results) == total_earned(d, names, results.drop_last())
                + indicator_sum(d, names[i as int], a as int)
                + (if i != j { indicator_sum(d, names[j as int], b as int) } else { 0 })
        }),
    decreases d.len(),
{
    if d.len() > 0 {
        lemma_total_earned_step(d.drop_last(), names, results);
    }
}

proof fn lemma_total_earned_all(names: Seq<Seq<char>>, results: Seq<MatchScore>)
    requires
        players_within(results, names.len()),
    ensures
        total_earned(distinct_names(names), names, results) == paid_out(results),
    decreases results.len(),
{
    let d = distinct_names(names);
    if results.len() == 0 {
        lemma_total_earned_zero(d, names, results);
    } else {
        let prev = results.drop_last();
        assert(players_within(prev, names.len())) by {
            assert forall|k: int| 0 <= k < prev.len() implies (#[trigger] prev[k]).0 < names.len()
                && prev[k].1 < names.len() by {
                assert(prev[k] == results[k]);
            }
        }
        lemma_total_earned_all(names, prev);
        lemma_total_earned_step(d, names, results);
        lemma_distinct_names(names);
        let (i, j, a, b) = results.last();
        assert(results[results.len() - 1] == results.last());
        assert(d.contains(names[i as int]));
        lemma_indicator_once(d, names[i as int], a as int);
        if i != j {
            assert(d.contains(names[j as int]));
            lemma_indicator_once(d, names[j as int], b as int);
        }
    }
}

proof fn lemma_total_earned_zero(d: Seq<Seq<char>>, names: Seq<Seq<char>>, results: Seq<MatchScore>)
    requires
        results.len() == 0,
    ensures
        total_earned(d, names, results) == 0,
    decreases d.len(),
{
    if d.len() > 0 {
        lemma_total_earned_zero(d.drop_last(), names, results);
    }
}

proof fn lemma_sum_scores_prefix(names: Seq<Seq<char>>, results: Seq<MatchScore>, r: Seq<(String, i32)>, k: int)
    requires
        is_tally(names, results, r),
        0 <= k <= r.len(),
    ensures
        sum_scores(r.take(k)) == total_earned(distinct_names(names).take(k), names, results),
    decreases k,
{
    if k > 0 {
        lemma_sum_scores_prefix(names, results, r, k - 1);
        assert(r.take(k).drop_last() =~= r.take(k - 1));
        assert(distinct_names(names).take(k).drop_last() =~= distinct_names(names).take(k - 1));
    }
}

/// A tally pays out exactly what the matches paid: the names' scores add
/// up to both scores of every match, a match against oneself counted once.
pub proof fn lemma_tally_conserves(names: Seq<Seq<char>>, results: Seq<MatchScore>, r: Seq<(String, i32)>)
    requires
        is_tally(names, results, r),
        players_within(results, names.len()),
    ensures
        sum_scores(r) == paid_out(results),
{
    lemma_sum_scores_prefix(names, results, r, r.len() as int);
    assert(r.take(r.len() as int) =~= r);
    assert(distinct_names(names).take(r.len() as int) =~= distinct_names(names));
    lemma_total_earned_all(names, results);
}

/// How many times `x` occurs among the names.
pub open spec fn count_of(names: Seq<Seq<char>>, x: Seq<char>) -> nat
    decreases names.len(),
{
    if names.len() == 0 {
        0
    } else {
        count_of(names.drop_last(), x) + (if names.last() == x {
            1nat
        } else {
            0nat
        })
    }
}

/// `r` lists each distinct name once, in order of first occurrence, with
/// the number of times it occurs.
pub open spec fn is_count(names: Seq<Seq<char>>, r: Seq<(String, usize)>) -> bool {
    &&& r.len() == distinct_names(names).len()
    &&& forall|k: int|
        0 <= k < r.len() ==> (#[trigger] r[k]).0@ == distinct_names(names)[k] && r[k].1 as nat
            == count_of(names, distinct_names(names)[k])
}

/// A name occurs no more often than there are names.
pub proof fn lemma_count_le_len(names: Seq<Seq<char>>, x: Seq<char>)
    ensures
        count_of(names, x) <= names.len(),
    decreases names.len(),
{
    if names.len() > 0 {
        lemma_count_le_len(names.drop_last(), x);
    }
}

/// The sum of the counts of a tally of occurrences.
pub open spec fn sum_counts(r: Seq<(String, usize)>) -> nat
    decreases r.len(),
{
    if r.len() == 0 {
        0
    } else {
        sum_counts(r.drop_last()) + r.last().1 as nat
    }
}

/// The number of occurrences of the names of `d` among `names`, together.
pub open spec fn total_count(d: Seq<Seq<char>>, names: Seq<Seq<char>>) -> nat
    decreases d.len(),
{
    if d.len() == 0 {
        0
    } else {
        total_count(d.drop_last(), names) + count_of(names, d.last())
    }
}

/// A name that does not occur is counted zero times.
pub proof fn lemma_count_absent(s: Seq<Seq<char>>, x: Seq<char>)
    requires
        !s.contains(x),
    ensures
        count_of(s, x) == 0,
    decreases s.len(),
{
    if s.len() > 0 {
        assert(!s.drop_last().contains(x)) by {
            if s.drop_last().contains(x) {
                let k = choose|k: int| 0 <= k < s.drop_last().len() && s.drop_last()[k] == x;
                assert(s[k] == x);
            }
        }
        lemma_count_absent(s.drop_last(), x);
        assert(s[s.len() - 1] == s.last());
    }
}

/// A name that occurs once among distinct names is counted once.
pub proof fn lemma_count_once(s: Seq<Seq<char>>, x: Seq<char>)
    requires
        s.no_duplicates(),
        s.contains(x),
    ensures
        count_of(s, x) == 1,
    decreases s.len(),
{
    let p = s.drop_last();
    if s.last() == x {
        assert(!p.contains(x)) by {
            if p.contains(x) {
                let k = choose|k: int| 0 <= k < p.len() && p[k] == x;
                assert(s[k] == s[s.len() - 1]);
            }
        }
        lemma_count_absent(p, x);
    } else {
        let k = choose|k: int| 0 <= k < s.len() && s[k] == x;
        assert(k != s.len() - 1);
        assert(p[k] == x);
        lemma_count_once(p, x);
    }
}

proof fn lemma_total_count_step(d: Seq<Seq<char>>, names: Seq<Seq<char>>)
    requires
        names.len() > 0,
    ensures
        total_count(d, names) == total_count(d, names.drop_last()) + count_of(d, names.last()),
    decreases d.len(),
{
    if d.len() > 0 {
        lemma_total_count_step(d.drop_last(), names);
    }
}

proof fn lemma_total_count_push(d: Seq<Seq<char>>, x: Seq<char>, names: Seq<Seq<char>>)
    ensures
        total_count(d.push(x), names) == total_count(d, names) + count_of(names, x),
{
    assert(d.push(x).drop_last() =~= d);
}

/// Each name occurs once among the distinct names, so their counts add up
/// to the number of names.
pub proof fn lemma_counts_add_up(names: Seq<Seq<char>>)
    ensures
        total_count(distinct_names(names), names) == names.len(),
    decreases names.len(),
{
    if names.len() > 0 {
        let p = names.drop_last();
        let l = names.last();
        let dp = distinct_names(p);
        lemma_counts_add_up(p);
        lemma_distinct_names(p);
        if dp.contains(l) {
            lemma_total_count_step(dp, names);
            lemma_count_once(dp, l);
        } else {
            lemma_total_count_push(dp, l, names);
            lemma_total_count_step(dp, names);
            lemma_count_absent(dp, l);
            assert(!p.contains(l));
            lemma_count_absent(p, l);
        }
    }
}

proof fn lemma_sum_counts_matches(names: Seq<Seq<char>>, r: Seq<(String, usize)>, k: int)
    requires
        is_count(names, r),
        0 <= k <= r.len(),
    ensures
        sum_counts(r.take(k)) == total_count(distinct_names(names).take(k), names),
    decreases k,
{
    if k > 0 {
        lemma_sum_counts_matches(names, r, k - 1);
        assert(r.take(k).drop_last() =~= r.take(k - 1));
        assert(distinct_names(names).take(k).drop_last() =~= distinct_names(names).take(k - 1));
    }
}

/// The counts of a tally of occurrences add up to the number of names.
pub proof fn lemma_count_total(names: Seq<Seq<char>>, r: Seq<(String, usize)>)
    requires
        is_count(names, r),
    ensures
        sum_counts(r) == names.len(),
{
    lemma_sum_counts_matches(names, r, r.len() as int);
    assert(r.take(r.len() as int) =~= r);
    assert(distinct_names(names).take(r.len() as int) =~= distinct_names(names));
    lemma_counts_add_up(names);
}

/// Counts how many times each name occurs. Names are listed once each, in
/// order of first occurrence.
pub fn count_names(names: &Vec<String>) -> (r: Vec<(String, usize)>)
    ensures
        is_count(string_views(names@), r@),
{
    let ghost views = string_views(names@);
    let keys = distinct_strings(names);
    let ghost d = distinct_names(views);
    proof {
        lemma_distinct_names(views);
    }
    let m = keys.len();
    let mut counts: Vec<usize> = Vec::new();
    for q in 0..m
        invariant
            counts@.len() == q,
            forall|i: int| 0 <= i < q ==> counts@[i] == 0,
    {
        counts.push(0);
    }
    let n = names.len();
    for k in 0..n
        invariant
            n == names@.len(),
            m == keys@.len(),
            views == string_views(names@),
            d == distinct_names(views),
            string_views(keys@) == d,
            d.no_duplicates(),
            forall|i: int| 0 <= i < views.len() ==> d.contains(#[trigger] views[i]),
            counts@.len() == m,
            forall|q: int|
                0 <= q < m ==> #[trigger] counts@[q] as nat == count_of(views.take(k as int), d[q]),
    {
        let ghost before = views.take(k as int);
        let ghost after = views.take(k + 1);
        assert(after.drop_last() =~= before);
        assert(after.last() == views[k as int]);
        assert(d.contains(views[k as int]));
        match find_name(&keys, &names[k]) {
            Some(j) => {
                proof {
                    lemma_count_le_len(before, d[j as int]);
                }
                let c = counts[j];
                counts.set(j, c + 1);
                assert forall|q: int| 0 <= q < m implies #[trigger] counts@[q] as nat == count_of(
                    after,
                    d[q],
                ) by {
                    if views[k as int] == d[q] {
                        assert(q == j);
                    }
                }
            },
            None => {
                assert(false);
            },
        }
    }
    assert(views.take(n as int) =~= views);
    let mut out: Vec<(String, usize)> = Vec::new();
    for q in 0..m
        invariant
            m == keys@.len(),
            counts@.len() == m,
            string_views(keys@) == d,
            out@.len() == q,
            forall|k: int|
                0 <= k < q ==> (#[trigger] out@[k]).0@ == d[k] && out@[k].1 as nat == count_of(views, d[k]),
            forall|k: int| 0 <= k < m ==> #[trigger] counts@[k] as nat == count_of(views, d[k]),
    {
        assert(keys@[q as int]@ == d[q as int]);
        out.push((keys[q].clone(), counts[q]));
    }
    out
}

/// The counts of a tally of occurrences, in order.
pub open spec fn count_keys(counts: Seq<(String, usize)>) -> Seq<int> {
    Seq::new(counts.len(), |k: int| counts[k].1 as int)
}

/// `r` holds the entries of `counts` in the order that `order` gives.
pub open spec fn counts_reordered(counts: Seq<(String, usize)>, order: Seq<usize>, r: Seq<(String, usize)>) -> bool {
    &&& r.len() == order.len()
    &&& forall|k: int|
        0 <= k < r.len() ==> (#[trigger] r[k]).0@ == counts[order[k] as int].0@ && r[k].1
            == counts[order[k] as int].1
}

/// `r` holds the entries of `counts` from the highest count down, entries
/// with equal counts in the order they are given.
pub open spec fn sorted_by_count(counts: Seq<(String, usize)>, r: Seq<(String, usize)>) -> bool {
    exists|order: Seq<usize>| is_ranking(count_keys(counts), order) && #[trigger] counts_reordered(counts, order, r)
}

/// Sorts the entries by descending count; the sort is stable.
pub fn sort_counts_descending(counts: &Vec<(String, usize)>) -> (r: Vec<(String, usize)>)
    ensures
        sorted_by_count(counts@, r@),
{
    let n = counts.len();
    let mut keys: Vec<i128> = Vec::new();
    for k in 0..n
        invariant
            n == counts@.len(),
            keys@.len() == k,
            forall|i: int| 0 <= i < k ==> keys@[i] == counts@[i].1,
    {
        keys.push(counts[k].1 as i128);
    }
    assert(key_values(keys@) =~= count_keys(counts@));
    let order = rank_descending(&keys);
    let mut out: Vec<(String, usize)> = Vec::new();
    for k in 0..n
        invariant
            n == counts@.len(),
            is_ranking(count_keys(counts@), order@),
            out@.len() == k,
            forall|i: int|
                0 <= i < k ==> (#[trigger] out@[i]).0@ == counts@[order@[i] as int].0@ && out@[i].1
                    == counts@[order@[i] as int].1,
    {
        assert(order@[k as int] < n);
        let idx = order[k];
        out.push((counts[idx].0.clone(), counts[idx].1));
    }
    assert(counts_reordered(counts@, order@, out@));
    out
}

} // verus!
