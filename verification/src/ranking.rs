use vstd::prelude::*;

verus! {

/// Candidate `i` comes before candidate `j`: its key is larger, or the keys are equal and
/// `i` is the earlier position.
pub open spec fn ranked_before(keys: Seq<Option<u64>>, i: int, j: int) -> bool {
    ||| keys[i].unwrap() > keys[j].unwrap()
    ||| (keys[i].unwrap() == keys[j].unwrap() && i < j)
}

/// `r` lists the best `limit` candidates of `keys` (the positions holding a key), best
/// first: by key from largest to smallest, equal keys in the order of their positions.
pub open spec fn is_top_ranking(keys: Seq<Option<u64>>, limit: nat, r: Seq<usize>) -> bool {
    &&& r.len() <= limit
    &&& forall|t: int| 0 <= t < r.len() ==> (#[trigger] r[t]) < keys.len() && keys[r[t] as int] is Some
    &&& forall|t1: int, t2: int|
        0 <= t1 < t2 < r.len() ==> ranked_before(keys, #[trigger] r[t1] as int, #[trigger] r[t2] as int)
    &&& forall|j: int|
        0 <= j < keys.len() && (#[trigger] keys[j]) is Some && !r.contains(j as usize) ==> {
            &&& r.len() == limit
            &&& forall|t: int| 0 <= t < r.len() ==> ranked_before(keys, #[trigger] r[t] as int, j)
        }
}

/// The number of entries of `s` that are set.
pub open spec fn count_true(s: Seq<bool>) -> nat
    decreases s.len(),
{
    if s.len() == 0 {
        0
    } else {
        count_true(s.drop_last()) + if s.last() { 1nat } else { 0nat }
    }
}

proof fn lemma_count_true_le(s: Seq<bool>)
    ensures
        count_true(s) <= s.len(),
    decreases s.len(),
{
    if s.len() > 0 {
        lemma_count_true_le(s.drop_last());
    }
}

proof fn lemma_count_true_set(s: Seq<bool>, i: int)
    requires
        0 <= i < s.len(),
        !s[i],
    ensures
        count_true(s.update(i, true)) == count_true(s) + 1,
    decreases s.len(),
{
    let u = s.update(i, true);
    if i == s.len() - 1 {
        assert(u.drop_last() =~= s.drop_last());
    } else {
        assert(u.drop_last() =~= s.drop_last().update(i, true));
        lemma_count_true_set(s.drop_last(), i);
    }
}

/// The positions of the best `limit` candidates of `keys`, best first.
pub fn top_ranked(keys: &Vec<Option<u64>>, limit: usize) -> (r: Vec<usize>)
    ensures
        is_top_ranking(keys@, limit as nat, r@),
{
    let n = keys.len();
    let mut taken: Vec<bool> = Vec::new();
    let mut i: usize = 0;
    while i < n
        invariant
            i <= n,
            taken@.len() == i,
            forall|j: int| 0 <= j < i ==> !(#[trigger] taken@[j]),
            count_true(taken@) == 0,
        decreases n - i,
    {
        proof {
            assert(taken@.push(false).drop_last() =~= taken@);
        }
        taken.push(false);
        i = i + 1;
    }
    let mut r: Vec<usize> = Vec::new();
    while r.len() < limit
        invariant
            n == keys@.len(),
            taken@.len() == n,
            r@.len() <= limit,
            count_true(taken@) == r@.len(),
            forall|j: int| 0 <= j < n ==> (#[trigger] taken@[j] <==> r@.contains(j as usize)),
            forall|t: int| 0 <= t < r@.len() ==> (#[trigger] r@[t]) < n && keys@[r@[t] as int] is Some,
            forall|t1: int, t2: int|
                0 <= t1 < t2 < r@.len() ==> ranked_before(keys@, #[trigger] r@[t1] as int, #[trigger] r@[t2] as int),
            forall|j: int|
                0 <= j < n && (#[trigger] keys@[j]) is Some && !taken@[j] ==> forall|t: int|
                    0 <= t < r@.len() ==> ranked_before(keys@, #[trigger] r@[t] as int, j),
        ensures
            r@.len() <= limit,
            forall|j: int| 0 <= j < n ==> (#[trigger] taken@[j] <==> r@.contains(j as usize)),
            forall|t: int| 0 <= t < r@.len() ==> (#[trigger] r@[t]) < n && keys@[r@[t] as int] is Some,
            forall|t1: int, t2: int|
                0 <= t1 < t2 < r@.len() ==> ranked_before(keys@, #[trigger] r@[t1] as int, #[trigger] r@[t2] as int),
            forall|j: int|
                0 <= j < n && (#[trigger] keys@[j]) is Some && !taken@[j] ==> r@.len() == limit,
            forall|j: int|
                0 <= j < n && (#[trigger] keys@[j]) is Some && !taken@[j] ==> forall|t: int|
                    0 <= t < r@.len() ==> ranked_before(keys@, #[trigger] r@[t] as int, j),
        decreases n - r@.len(),
    {
        let mut best: Option<usize> = None;
        let mut best_key: u64 = 0;
        let mut i: usize = 0;
        while i < n
            invariant
                n == keys@.len(),
                taken@.len() == n,
                i <= n,
                best matches Some(b) ==> {
                    &&& b < i
                    &&& keys@[b as int] == Some(best_key)
                    &&& !taken@[b as int]
                    &&& forall|j: int|
                        0 <= j < i && (#[trigger] keys@[j]) is Some && !taken@[j] && j != b
                            ==> ranked_before(keys@, b as int, j)
                },
                best is None ==> forall|j: int|
                    0 <= j < i ==> (#[trigger] keys@[j]) is None || taken@[j],
            decreases n - i,
        {
            if !taken[i] {
                match keys[i] {
                    Some(k) => {
                        let better = match best {
                            None => true,
                            Some(_) => k > best_key,
                        };
                        if better {
                            best = Some(i);
                            best_key = k;
                        }
                    },
                    None => {},
                }
            }
            i = i + 1;
        }
        match best {
            None => {
                break;
            },
            Some(b) => {
                let ghost old_r = r@;
                proof {
                    assert forall|j: int| 0 <= j < n implies (taken@.update(b as int, true)[j]
                        <==> old_r.push(b).contains(j as usize)) by {
                        if j != b {
                            if old_r.push(b).contains(j as usize) {
                                let t = choose|t: int| 0 <= t < old_r.push(b).len() && old_r.push(b)[t] == j as usize;
                                assert(t < old_r.len());
                                assert(old_r.contains(j as usize));
                            }
                            if old_r.contains(j as usize) {
                                let t = choose|t: int| 0 <= t < old_r.len() && old_r[t] == j as usize;
                                assert(old_r.push(b)[t] == j as usize);
                            }
                        } else {
                            assert(old_r.push(b)[old_r.len() as int] == b);
                        }
                    }
                }
                proof {
                    lemma_count_true_set(taken@, b as int);
                    lemma_count_true_le(taken@.update(b as int, true));
                }
                taken.set(b, true);
                r.push(b);
            },
        }
        assert(r@.len() > 0);
    }
    proof {
        assert forall|j: int|
            0 <= j < keys@.len() && (#[trigger] keys@[j]) is Some && !r@.contains(j as usize) implies {
                &&& r@.len() == limit
                &&& forall|t: int| 0 <= t < r@.len() ==> ranked_before(keys@, #[trigger] r@[t] as int, j)
            } by {
            assert(!taken@[j]);
        }
    }
    r
}

/// No candidate is ranked before itself, and of two candidates at most one is ranked first.
proof fn lemma_ranked_before_asymmetric(keys: Seq<Option<u64>>, i: int, j: int)
    ensures
        !(ranked_before(keys, i, j) && ranked_before(keys, j, i)),
{
}

proof fn lemma_rankings_agree_up_to(
    keys: Seq<Option<u64>>,
    limit: nat,
    r1: Seq<usize>,
    r2: Seq<usize>,
    t: int,
)
    requires
        is_top_ranking(keys, limit, r1),
        is_top_ranking(keys, limit, r2),
        0 <= t < r1.len(),
        t < r2.len(),
    ensures
        forall|u: int| 0 <= u <= t ==> r1[u] == r2[u],
    decreases t,
{
    if t > 0 {
        lemma_rankings_agree_up_to(keys, limit, r1, r2, t - 1);
    }
    let a = r1[t];
    let b = r2[t];
    if a != b {
        // b comes before a in the second ranking's view
        assert(ranked_before(keys, b as int, a as int)) by {
            assert(keys[a as int] is Some);
            if r2.contains(a) {
                let u = choose|u: int| 0 <= u < r2.len() && r2[u] == a;
                if u < t {
                    assert(r1[u] == a);
                    assert(ranked_before(keys, r1[u] as int, r1[t] as int));
                } else if u > t {
                    assert(ranked_before(keys, r2[t] as int, r2[u] as int));
                }
            } else {
                assert(ranked_before(keys, r2[t] as int, a as int));
            }
        }
        assert(ranked_before(keys, a as int, b as int)) by {
            assert(keys[b as int] is Some);
            if r1.contains(b) {
                let u = choose|u: int| 0 <= u < r1.len() && r1[u] == b;
                if u < t {
                    assert(r2[u] == b);
                    assert(ranked_before(keys, r2[u] as int, r2[t] as int));
                } else if u > t {
                    assert(ranked_before(keys, r1[t] as int, r1[u] as int));
                }
            } else {
                assert(ranked_before(keys, r1[t] as int, b as int));
            }
        }
        lemma_ranked_before_asymmetric(keys, a as int, b as int);
    }
}

/// A ranking of some keys is no shorter than another ranking of the same keys.
proof fn lemma_rankings_same_length(keys: Seq<Option<u64>>, limit: nat, r1: Seq<usize>, r2: Seq<usize>)
    requires
        is_top_ranking(keys, limit, r1),
        is_top_ranking(keys, limit, r2),
    ensures
        r1.len() >= r2.len(),
{
    if r1.len() < r2.len() {
        let n1 = r1.len() as int;
        let c = r2[n1];
        if n1 > 0 {
            lemma_rankings_agree_up_to(keys, limit, r1, r2, n1 - 1);
        }
        assert(keys[c as int] is Some);
        if r1.contains(c) {
            let u = choose|u: int| 0 <= u < r1.len() && r1[u] == c;
            assert(r2[u] == c);
            assert(ranked_before(keys, r2[u] as int, r2[n1] as int));
        } else {
            assert(r1.len() == limit);
        }
    }
}

/// The best `limit` candidates of `keys` are determined: two rankings of the same keys agree.
pub proof fn law_top_ranking_unique(keys: Seq<Option<u64>>, limit: nat, r1: Seq<usize>, r2: Seq<usize>)
    requires
        is_top_ranking(keys, limit, r1),
        is_top_ranking(keys, limit, r2),
    ensures
        r1 == r2,
{
    lemma_rankings_same_length(keys, limit, r1, r2);
    lemma_rankings_same_length(keys, limit, r2, r1);
    if r1.len() > 0 {
        lemma_rankings_agree_up_to(keys, limit, r1, r2, r1.len() - 1);
    }
    assert(r1 =~= r2);
}

} // verus!
