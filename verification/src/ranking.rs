use vstd::prelude::*;

verus! {

/// Position `a` comes before position `b` in a ranking by descending key:
/// a higher key first, and among equal keys the earlier position first.
pub open spec fn ranked_before(keys: Seq<int>, a: int, b: int) -> bool {
    keys[a] > keys[b] || (keys[a] == keys[b] && a < b)
}

/// `r` lists every position of `keys` once, from the highest key down, equal
/// keys in the order they are given: what a stable sort by descending key gives.
pub open spec fn is_ranking(keys: Seq<int>, r: Seq<usize>) -> bool {
    &&& r.len() == keys.len()
    &&& forall|k: int| 0 <= k < r.len() ==> #[trigger] r[k] < keys.len()
    &&& forall|i: usize| i < keys.len() ==> #[trigger] r.contains(i)
    &&& forall|a: int, b: int|
        0 <= a < b < r.len() ==> ranked_before(keys, #[trigger] r[a] as int, #[trigger] r[b] as int)
}

/// The keys as integers.
pub open spec fn key_values(keys: Seq<i128>) -> Seq<int> {
    Seq::new(keys.len(), |k: int| keys[k] as int)
}

/// Returns the positions of `keys` ordered by descending key, equal keys in
/// the order they are given.
pub fn rank_descending(keys: &Vec<i128>) -> (r: Vec<usize>)
    ensures
        is_ranking(key_values(keys@), r@),
{
    let ghost kv = key_values(keys@);
    let n = keys.len();
    let mut r: Vec<usize> = Vec::new();
    for i in 0..n
        invariant
            n == keys@.len(),
            kv == key_values(keys@),
            r@.len() == i,
            forall|k: int| 0 <= k < r@.len() ==> #[trigger] r@[k] < i,
            forall|m: usize| m < i ==> #[trigger] r@.contains(m),
            forall|a: int, b: int|
                0 <= a < b < r@.len() ==> ranked_before(kv, #[trigger] r@[a] as int, #[trigger] r@[b] as int),
    {
        let mut p: usize = 0;
        while p < r.len() && keys[r[p]] >= keys[i]
            invariant
                p <= r@.len(),
                r@.len() == i,
                n == keys@.len(),
                kv == key_values(keys@),
                i < n,
                forall|k: int| 0 <= k < r@.len() ==> #[trigger] r@[k] < i,
                forall|k: int| 0 <= k < p ==> kv[#[trigger] r@[k] as int] >= kv[i as int],
            decreases r@.len() - p,
        {
            p = p + 1;
        }
        let ghost old_r = r@;
        r.insert(p, i);
        proof {
            assert(r@ == old_r.insert(p as int, i));
            assert forall|a: int, b: int| 0 <= a < b < r@.len() implies ranked_before(
                kv,
                #[trigger] r@[a] as int,
                #[trigger] r@[b] as int,
            ) by {
                if b < p {
                    assert(r@[a] == old_r[a] && r@[b] == old_r[b]);
                } else if b == p {
                    assert(r@[a] == old_r[a]);
                    assert(kv[old_r[a] as int] >= kv[i as int]);
                } else if a == p {
                    assert(r@[b] == old_r[b - 1]);
                    assert(p < old_r.len());
                    if b - 1 > p {
                        assert(ranked_before(kv, old_r[p as int] as int, old_r[b - 1] as int));
                    }
                    assert(kv[old_r[p as int] as int] < kv[i as int]);
                } else if a < p {
                    assert(r@[a] == old_r[a] && r@[b] == old_r[b - 1]);
                } else {
                    assert(r@[a] == old_r[a - 1] && r@[b] == old_r[b - 1]);
                }
            }
            assert forall|m: usize| m < i + 1 implies #[trigger] r@.contains(m) by {
                if m == i {
                    assert(r@[p as int] == i);
                } else {
                    assert(old_r.contains(m));
                    let k = choose|k: int| 0 <= k < old_r.len() && old_r[k] == m;
                    if k < p {
                        assert(r@[k] == m);
                    } else {
                        assert(r@[k + 1] == m);
                    }
                }
            }
            assert forall|k: int| 0 <= k < r@.len() implies #[trigger] r@[k] < i + 1 by {
                if k < p {
                    assert(r@[k] == old_r[k]);
                } else if k > p {
                    assert(r@[k] == old_r[k - 1]);
                }
            }
        }
    }
    r
}

/// A ranking is unique: two rankings of the same keys are equal.
pub proof fn lemma_ranking_unique(keys: Seq<int>, r1: Seq<usize>, r2: Seq<usize>)
    requires
        is_ranking(keys, r1),
        is_ranking(keys, r2),
    ensures
        r1 == r2,
{
    if r1.len() > 0 {
        lemma_prefix_agrees(keys, r1, r2, r1.len() - 1);
    }
    assert(r1 =~= r2);
}

proof fn lemma_prefix_agrees(keys: Seq<int>, r1: Seq<usize>, r2: Seq<usize>, a0: int)
    requires
        is_ranking(keys, r1),
        is_ranking(keys, r2),
        0 <= a0 < r1.len(),
    ensures
        forall|k: int| 0 <= k <= a0 ==> r1[k] == r2[k],
    decreases a0,
{
    if a0 > 0 {
        lemma_prefix_agrees(keys, r1, r2, a0 - 1);
    }
    if r1[a0] != r2[a0] {
        let x = r1[a0];
        let y = r2[a0];
        assert(r2.contains(x));
        let b = choose|b: int| 0 <= b < r2.len() && r2[b] == x;
        assert(r1.contains(y));
        let c = choose|c: int| 0 <= c < r1.len() && r1[c] == y;
        if b < a0 {
            assert(r1[b] == x);
            assert(ranked_before(keys, r1[b] as int, r1[a0] as int));
        }
        if c < a0 {
            assert(r2[c] == y);
            assert(ranked_before(keys, r2[c] as int, r2[a0] as int));
        }
        assert(b > a0 && c > a0);
        assert(ranked_before(keys, r2[a0] as int, r2[b] as int));
        assert(ranked_before(keys, r1[a0] as int, r1[c] as int));
    }
}

} // verus!
