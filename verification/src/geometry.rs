use vstd::prelude::*;

verus! {

/// `matrix` is square: one row of `matrix.len()` entries per point.
pub open spec fn is_square(matrix: Seq<Vec<bool>>) -> bool {
    forall|r: int| 0 <= r < matrix.len() ==> #[trigger] matrix[r]@.len() == matrix.len()
}

/// Point `k` lies within epsilon of an earlier member of `packing`.
pub open spec fn covered_by(close: Seq<Vec<bool>>, packing: Seq<usize>, k: int) -> bool {
    exists|m: int| 0 <= m < packing.len() && packing[m] < k && #[trigger] close[packing[m] as int]@[k]
}

/// `packing` is the greedy packing of the eligible points in index order:
/// strictly increasing, eligible only, and an eligible point belongs to it
/// exactly when no earlier member lies within epsilon of it.
pub open spec fn is_greedy_packing(eligible: Seq<bool>, close: Seq<Vec<bool>>, packing: Seq<usize>) -> bool {
    &&& forall|m: int| 0 <= m < packing.len() ==> #[trigger] packing[m] < eligible.len()
    &&& forall|m: int| 0 <= m < packing.len() ==> eligible[#[trigger] packing[m] as int]
    &&& forall|a: int, b: int| 0 <= a < b < packing.len() ==> #[trigger] packing[a] < #[trigger] packing[b]
    &&& forall|k: int|
        0 <= k < eligible.len() && #[trigger] eligible[k] ==> (packing.contains(k as usize) <==> !covered_by(
            close,
            packing,
            k,
        ))
}

/// Greedy maximal packing of the eligible points, where `close[i][j]` says
/// that point `j` lies within epsilon of point `i`: the first unmarked
/// eligible point is picked and every point close to it is marked.
pub fn greedy_packing_among(eligible: &[bool], close: &[Vec<bool>]) -> (packing: Vec<usize>)
    requires
        close@.len() == eligible@.len(),
        is_square(close@),
    ensures
        is_greedy_packing(eligible@, close@, packing@),
{
    let n = eligible.len();
    let mut marked: Vec<bool> = Vec::new();
    let mut z: usize = 0;
    while z < n
        invariant
            z <= n,
            marked@ == Seq::new(z as nat, |_k: int| false),
        decreases n - z,
    {
        marked.push(false);
        z = z + 1;
        assert(marked@ =~= Seq::new(z as nat, |_k: int| false));
    }
    let mut packing: Vec<usize> = Vec::new();
    let mut i: usize = 0;
    while i < n
        invariant
            n == eligible@.len(),
            close@.len() == n,
            is_square(close@),
            marked@.len() == n,
            i <= n,
            forall|m: int| 0 <= m < packing@.len() ==> #[trigger] packing@[m] < i,
            forall|m: int| 0 <= m < packing@.len() ==> eligible@[#[trigger] packing@[m] as int],
            forall|a: int, b: int|
                0 <= a < b < packing@.len() ==> #[trigger] packing@[a] < #[trigger] packing@[b],
            forall|k: int|
                0 <= k < i && #[trigger] eligible@[k] ==> (packing@.contains(k as usize)
                    <==> !covered_by(close@, packing@, k)),
            forall|k: int|
                i <= k < n ==> (#[trigger] marked@[k] <==> exists|m: int|
                    0 <= m < packing@.len() && #[trigger] close@[packing@[m] as int]@[k]),
        decreases n - i,
    {
        if eligible[i] && !marked[i] {
            let ghost before = packing@;
            packing.push(i);
            let row = &close[i];
            let mut j: usize = 0;
            while j < n
                invariant
                    n == eligible@.len(),
                    close@.len() == n,
                    is_square(close@),
                    row@ == close@[i as int]@,
                    row@.len() == n,
                    i < n,
                    marked@.len() == n,
                    packing@ == before.push(i),
                    j <= n,
                    forall|k: int|
                        i < k < n ==> (#[trigger] marked@[k] <==> ((exists|m: int|
                            0 <= m < before.len() && #[trigger] close@[before[m] as int]@[k]) || (k
                            < j && row@[k]))),
                decreases n - j,
            {
                if row[j] {
                    marked[j] = true;
                }
                j = j + 1;
            }
            assert forall|k: int|
                i + 1 <= k < n implies (#[trigger] marked@[k] <==> exists|m: int|
                0 <= m < packing@.len() && #[trigger] close@[packing@[m] as int]@[k]) by {
                if marked@[k] {
                    if !(exists|m: int|
                        0 <= m < before.len() && #[trigger] close@[before[m] as int]@[k]) {
                        assert(close@[packing@[before.len() as int] as int]@[k]);
                    } else {
                        let m = choose|m: int|
                            0 <= m < before.len() && #[trigger] close@[before[m] as int]@[k];
                        assert(packing@[m] == before[m]);
                    }
                }
                if exists|m: int| 0 <= m < packing@.len() && #[trigger] close@[packing@[m] as int]@[k] {
                    let m = choose|m: int|
                        0 <= m < packing@.len() && #[trigger] close@[packing@[m] as int]@[k];
                    if m < before.len() {
                        assert(close@[before[m] as int]@[k]);
                    }
                }
            }
            assert forall|k: int|
                0 <= k < i + 1 && #[trigger] eligible@[k] implies (packing@.contains(k as usize)
                <==> !covered_by(close@, packing@, k)) by {
                if k < i {
                    assert(before.contains(k as usize) == packing@.contains(k as usize)) by {
                        if packing@.contains(k as usize) {
                            let m = choose|m: int| 0 <= m < packing@.len() && packing@[m] == k as usize;
                            assert(m < before.len());
                            assert(before[m] == k as usize);
                        }
                        if before.contains(k as usize) {
                            let m = choose|m: int| 0 <= m < before.len() && before[m] == k as usize;
                            assert(packing@[m] == k as usize);
                        }
                    }
                    assert(covered_by(close@, before, k) == covered_by(close@, packing@, k)) by {
                        if covered_by(close@, packing@, k) {
                            let m = choose|m: int|
                                0 <= m < packing@.len() && packing@[m] < k
                                    && #[trigger] close@[packing@[m] as int]@[k];
                            assert(m < before.len());
                            assert(before[m] == packing@[m]);
                        }
                        if covered_by(close@, before, k) {
                            let m = choose|m: int|
                                0 <= m < before.len() && before[m] < k
                                    && #[trigger] close@[before[m] as int]@[k];
                            assert(packing@[m] == before[m]);
                        }
                    }
                } else {
                    assert(packing@[before.len() as int] == i);
                    if covered_by(close@, packing@, k) {
                        let m = choose|m: int|
                            0 <= m < packing@.len() && packing@[m] < k
                                && #[trigger] close@[packing@[m] as int]@[k];
                        assert(m < before.len());
                        assert(close@[before[m] as int]@[k]);
                    }
                }
            }
        } else {
            if eligible[i] {
                assert(covered_by(close@, packing@, i as int)) by {
                    let m = choose|m: int|
                        0 <= m < packing@.len() && #[trigger] close@[packing@[m] as int]@[i as int];
                    assert(packing@[m] < i);
                }
                assert(!packing@.contains(i)) by {
                    if packing@.contains(i) {
                        let m = choose|m: int| 0 <= m < packing@.len() && packing@[m] == i;
                        assert(packing@[m] < i);
                    }
                }
            }
        }
        i = i + 1;
    }
    packing
}

/// Greedy maximal epsilon-separated packing over all points.
pub fn greedy_packing(close: &[Vec<bool>]) -> (packing: Vec<usize>)
    requires
        is_square(close@),
    ensures
        is_greedy_packing(Seq::new(close@.len(), |_k: int| true), close@, packing@),
{
    let n = close.len();
    let mut eligible: Vec<bool> = Vec::new();
    let mut z: usize = 0;
    while z < n
        invariant
            z <= n,
            eligible@ == Seq::new(z as nat, |_k: int| true),
        decreases n - z,
    {
        eligible.push(true);
        z = z + 1;
        assert(eligible@ =~= Seq::new(z as nat, |_k: int| true));
    }
    greedy_packing_among(eligible.as_slice(), close)
}

/// Branching number: size of the greedy packing of the points inside the
/// horizon (`eligible`).
pub fn branching_number(eligible: &[bool], close: &[Vec<bool>]) -> (count: usize)
    requires
        close@.len() == eligible@.len(),
        is_square(close@),
    ensures
        exists|packing: Seq<usize>| is_greedy_packing(eligible@, close@, packing) && count == packing.len(),
{
    let packing = greedy_packing_among(eligible, close);
    packing.len()
}


/// A greedy packing is both a packing and a cover: no member lies within
/// epsilon of an earlier member, and every eligible point left out lies
/// within epsilon of an earlier member.
pub proof fn lemma_greedy_packing_separated_and_covering(
    eligible: Seq<bool>,
    close: Seq<Vec<bool>>,
    packing: Seq<usize>,
)
    requires
        is_greedy_packing(eligible, close, packing),
    ensures
        forall|a: int, b: int|
            0 <= a < b < packing.len() ==> !close[#[trigger] packing[a] as int]@[#[trigger] packing[b] as int],
        forall|k: int|
            0 <= k < eligible.len() && eligible[k] && !packing.contains(k as usize) ==> exists|m: int|
                0 <= m < packing.len() && packing[m] < k && #[trigger] close[packing[m] as int]@[k],
{
    assert forall|a: int, b: int| 0 <= a < b < packing.len() implies !close[#[trigger] packing[a] as int]@[#[trigger] packing[b] as int] by {
        let k = packing[b] as int;
        assert(eligible[k]);
        assert(packing.contains(packing[b]));
        assert(!covered_by(close, packing, k));
        assert(packing[a] < packing[b]);
    }
}


/// Point `a` comes before point `b` when ordered by key, ties by index.
pub open spec fn key_before(keys: Seq<i64>, a: usize, b: usize) -> bool {
    keys[a as int] < keys[b as int] || (keys[a as int] == keys[b as int] && a < b)
}

/// `order` lists every point below `n` once, sorted by key, ties by index.
pub open spec fn is_key_order(keys: Seq<i64>, order: Seq<usize>, n: nat) -> bool {
    &&& order.len() == n
    &&& forall|m: int| 0 <= m < order.len() ==> #[trigger] order[m] < n
    &&& forall|a: int, b: int|
        0 <= a < b < order.len() ==> key_before(keys, #[trigger] order[a], #[trigger] order[b])
    &&& forall|i: usize| i < n ==> order.contains(i)
}

/// Sort points by radius (ascending), given each radius's total-order key,
/// ties broken by index. Returns the permutation of indices.
pub fn radial_sort(keys: &[i64]) -> (order: Vec<usize>)
    ensures
        is_key_order(keys@, order@, keys@.len()),
{
    let n = keys.len();
    let mut order: Vec<usize> = Vec::new();
    let mut i: usize = 0;
    while i < n
        invariant
            n == keys@.len(),
            i <= n,
            is_key_order(keys@, order@, i as nat),
        decreases n - i,
    {
        let mut p: usize = 0;
        while p < order.len() && keys[order[p]] <= keys[i]
            invariant
                n == keys@.len(),
                i < n,
                is_key_order(keys@, order@, i as nat),
                p <= order@.len(),
                forall|m: int| 0 <= m < p ==> key_before(keys@, #[trigger] order@[m], i),
            decreases order@.len() - p,
        {
            p = p + 1;
        }
        let ghost before = order@;
        assert(p < before.len() ==> keys@[i as int] < keys@[before[p as int] as int]);
        order.insert(p, i);
        proof {
            before.insert_ensures(p as int, i);
            let after = order@;
            assert forall|m: int| 0 <= m < after.len() implies #[trigger] after[m] < i + 1 by {
                if m < p {
                } else if m > p {
                    assert(after[m] == before[m - 1]);
                }
            }
            assert forall|a: int, b: int|
                0 <= a < b < after.len() implies key_before(keys@, #[trigger] after[a], #[trigger] after[b]) by {
                if b < p {
                } else if b == p {
                    assert(after[a] == before[a]);
                } else if a > p {
                    assert(after[a] == before[a - 1]);
                    assert(after[b] == before[b - 1]);
                } else if a == p {
                    assert(after[b] == before[b - 1]);
                    assert(before[p as int] == after[p + 1]);
                    if b - 1 > p {
                        assert(key_before(keys@, before[p as int], before[b - 1]));
                    }
                    assert(keys@[i as int] < keys@[before[p as int] as int]);
                } else {
                    assert(after[a] == before[a]);
                    assert(after[b] == before[b - 1]);
                }
            }
            assert forall|x: usize| x < i + 1 implies after.contains(x) by {
                if x == i {
                    assert(after[p as int] == i);
                } else {
                    assert(before.contains(x));
                    let m = choose|m: int| 0 <= m < before.len() && before[m] == x;
                    if m < p {
                        assert(after[m] == x);
                    } else {
                        assert(after[m + 1] == x);
                    }
                }
            }
        }
        i = i + 1;
    }
    order
}


proof fn lemma_key_order_agree_upto(keys: Seq<i64>, a: Seq<usize>, b: Seq<usize>, n: nat, k: int)
    requires
        n == keys.len(),
        is_key_order(keys, a, n),
        is_key_order(keys, b, n),
        0 <= k < n,
    ensures
        forall|j: int| 0 <= j <= k ==> a[j] == b[j],
    decreases k,
{
    if k > 0 {
        lemma_key_order_agree_upto(keys, a, b, n, k - 1);
    }
    let x = a[k];
    let y = b[k];
    if x != y {
        assert(b.contains(x));
        let j = choose|j: int| 0 <= j < b.len() && b[j] == x;
        assert(a.contains(y));
        let i = choose|i: int| 0 <= i < a.len() && a[i] == y;
        if j < k {
            assert(a[j] == b[j]);
            assert(key_before(keys, a[j], a[k]));
        } else if i < k {
            assert(a[i] == b[i]);
            assert(key_before(keys, b[i], b[k]));
        } else {
            assert(j != k);
            assert(i != k);
            assert(key_before(keys, b[k], b[j]));
            assert(key_before(keys, a[k], a[i]));
        }
    }
}

/// There is only one key order of a set of points: sorting by key with ties
/// broken by index determines the permutation.
pub proof fn lemma_key_order_unique(keys: Seq<i64>, a: Seq<usize>, b: Seq<usize>)
    requires
        is_key_order(keys, a, keys.len()),
        is_key_order(keys, b, keys.len()),
    ensures
        a == b,
{
    if keys.len() > 0 {
        lemma_key_order_agree_upto(keys, a, b, keys.len(), keys.len() - 1);
    }
    assert(a =~= b);
}

proof fn lemma_increasing_agree_upto(a: Seq<usize>, b: Seq<usize>, k: int)
    requires
        forall|x: int, y: int| 0 <= x < y < a.len() ==> #[trigger] a[x] < #[trigger] a[y],
        forall|x: int, y: int| 0 <= x < y < b.len() ==> #[trigger] b[x] < #[trigger] b[y],
        forall|v: usize| a.contains(v) <==> b.contains(v),
        0 <= k < a.len(),
        k < b.len(),
    ensures
        forall|j: int| 0 <= j <= k ==> a[j] == b[j],
    decreases k,
{
    if k > 0 {
        lemma_increasing_agree_upto(a, b, k - 1);
    }
    let x = a[k];
    let y = b[k];
    if x != y {
        assert(a.contains(x));
        let j = choose|j: int| 0 <= j < b.len() && b[j] == x;
        assert(b.contains(y));
        let i = choose|i: int| 0 <= i < a.len() && a[i] == y;
        if j < k {
            assert(a[j] == b[j]);
        } else if i < k {
            assert(a[i] == b[i]);
        } else {
            assert(b[k] < b[j]);
            assert(a[k] < a[i]);
        }
    }
}

proof fn lemma_increasing_same_elements_equal(a: Seq<usize>, b: Seq<usize>)
    requires
        forall|x: int, y: int| 0 <= x < y < a.len() ==> #[trigger] a[x] < #[trigger] a[y],
        forall|x: int, y: int| 0 <= x < y < b.len() ==> #[trigger] b[x] < #[trigger] b[y],
        forall|v: usize| a.contains(v) <==> b.contains(v),
    ensures
        a == b,
{
    let m = if a.len() < b.len() {
        a.len()
    } else {
        b.len()
    };
    if m > 0 {
        lemma_increasing_agree_upto(a, b, m - 1);
    }
    if a.len() < b.len() {
        assert(b.contains(b[m as int]));
        let i = choose|i: int| 0 <= i < a.len() && a[i] == b[m as int];
        assert(a[i] == b[i]);
        assert(b[i] < b[m as int]);
    } else if b.len() < a.len() {
        assert(a.contains(a[m as int]));
        let i = choose|i: int| 0 <= i < b.len() && b[i] == a[m as int];
        assert(a[i] == b[i]);
        assert(a[i] < a[m as int]);
    }
    assert(a =~= b);
}

proof fn lemma_greedy_members_agree(
    eligible: Seq<bool>,
    close: Seq<Vec<bool>>,
    p: Seq<usize>,
    q: Seq<usize>,
    k: int,
)
    requires
        is_greedy_packing(eligible, close, p),
        is_greedy_packing(eligible, close, q),
        0 <= k,
    ensures
        forall|x: usize| x < k ==> (p.contains(x) <==> q.contains(x)),
    decreases k,
{
    if k > 0 {
        lemma_greedy_members_agree(eligible, close, p, q, k - 1);
        let x = (k - 1) as usize;
        if x < eligible.len() && eligible[x as int] {
            if covered_by(close, p, x as int) {
                let m = choose|m: int|
                    0 <= m < p.len() && p[m] < x && #[trigger] close[p[m] as int]@[x as int];
                assert(p.contains(p[m]));
                assert(q.contains(p[m]));
                let m2 = choose|m2: int| 0 <= m2 < q.len() && q[m2] == p[m];
                assert(close[q[m2] as int]@[x as int]);
            }
            if covered_by(close, q, x as int) {
                let m = choose|m: int|
                    0 <= m < q.len() && q[m] < x && #[trigger] close[q[m] as int]@[x as int];
                assert(q.contains(q[m]));
                assert(p.contains(q[m]));
                let m2 = choose|m2: int| 0 <= m2 < p.len() && p[m2] == q[m];
                assert(close[p[m2] as int]@[x as int]);
            }
        } else {
            if p.contains(x) {
                let m = choose|m: int| 0 <= m < p.len() && p[m] == x;
                assert(eligible[p[m] as int]);
            }
            if q.contains(x) {
                let m = choose|m: int| 0 <= m < q.len() && q[m] == x;
                assert(eligible[q[m] as int]);
            }
        }
    }
}

/// The greedy packing is determined by the eligible points and the
/// closeness relation: any two greedy packings are the same sequence.
pub proof fn lemma_greedy_packing_unique(
    eligible: Seq<bool>,
    close: Seq<Vec<bool>>,
    p: Seq<usize>,
    q: Seq<usize>,
)
    requires
        is_greedy_packing(eligible, close, p),
        is_greedy_packing(eligible, close, q),
    ensures
        p == q,
{
    lemma_greedy_members_agree(eligible, close, p, q, eligible.len() as int);
    assert forall|v: usize| p.contains(v) <==> q.contains(v) by {
        if p.contains(v) {
            let m = choose|m: int| 0 <= m < p.len() && p[m] == v;
            assert(p[m] < eligible.len());
        }
        if q.contains(v) {
            let m = choose|m: int| 0 <= m < q.len() && q[m] == v;
            assert(q[m] < eligible.len());
        }
    }
    lemma_increasing_same_elements_equal(p, q);
}

} // verus!
