//! Clustering.
use crate::metric;
use crate::metric::Distance;
use crate::random::random_below;
use crate::word;
use vstd::prelude::*;

verus! {

/// The largest finite number.
pub const FARTHEST: u32 = 0x7f7f_ffff;

/// The first of the nearest among the first `upto` centroids, with its distance; the
/// first centroid at the largest finite distance when none is nearer.
pub open spec fn nearest_centroid<D: Distance>(
    dist: D,
    v: Seq<u32>,
    centroids: Seq<Seq<u32>>,
    upto: int,
) -> (int, u32)
    decreases upto,
{
    if upto <= 0 {
        (0, FARTHEST)
    } else {
        let best = nearest_centroid(dist, v, centroids, upto - 1);
        let d = dist.square_l2_spec(v, centroids[upto - 1]);
        if word::less(d, best.1) {
            (upto - 1, d)
        } else {
            best
        }
    }
}

/// The nearest centroid is one of those compared.
pub proof fn lemma_nearest_centroid<D: Distance>(
    dist: D,
    v: Seq<u32>,
    centroids: Seq<Seq<u32>>,
    upto: int,
)
    ensures
        0 <= nearest_centroid(dist, v, centroids, upto).0,
        upto > 0 ==> nearest_centroid(dist, v, centroids, upto).0 < upto,
    decreases upto,
{
    if upto > 0 {
        lemma_nearest_centroid(dist, v, centroids, upto - 1);
    }
}

/// Nothing compared is nearer than the nearest centroid, which is at its own distance,
/// unless all are at the largest distance or beyond.
pub proof fn lemma_nothing_nearer<D: Distance>(
    dist: D,
    v: Seq<u32>,
    centroids: Seq<Seq<u32>>,
    upto: int,
    c: int,
)
    requires
        0 <= c < upto,
    ensures
        !word::less(
            dist.square_l2_spec(v, centroids[c]),
            nearest_centroid(dist, v, centroids, upto).1,
        ),
        nearest_centroid(dist, v, centroids, upto).1 == FARTHEST || nearest_centroid(
            dist,
            v,
            centroids,
            upto,
        ).1 == dist.square_l2_spec(
            v,
            centroids[nearest_centroid(dist, v, centroids, upto).0],
        ),
    decreases upto,
{
    if c < upto - 1 {
        lemma_nothing_nearer(dist, v, centroids, upto - 1, c);
    } else if upto > 1 {
        lemma_nothing_nearer(dist, v, centroids, upto - 1, 0);
    }
}

/// The cluster that vector `i` falls to.
pub open spec fn cluster_of<D: Distance>(
    dist: D,
    vectors: Seq<Seq<u32>>,
    centroids: Seq<Seq<u32>>,
    i: int,
) -> int {
    nearest_centroid(dist, vectors[i], centroids, centroids.len() as int).0
}

/// The first `upto` vectors that fall to cluster `c`, in turn.
pub open spec fn members<D: Distance>(
    dist: D,
    vectors: Seq<Seq<u32>>,
    centroids: Seq<Seq<u32>>,
    c: int,
    upto: int,
) -> Seq<Seq<u32>>
    decreases upto,
{
    if upto <= 0 {
        Seq::empty()
    } else if cluster_of(dist, vectors, centroids, upto - 1) == c {
        members(dist, vectors, centroids, c, upto - 1).push(vectors[upto - 1])
    } else {
        members(dist, vectors, centroids, c, upto - 1)
    }
}

/// One improvement: each centroid moves to the mean of its members, or to some vector
/// when it has none.
pub open spec fn improved<D: Distance>(
    dist: D,
    vectors: Seq<Seq<u32>>,
    before: Seq<Seq<u32>>,
    after: Seq<Seq<u32>>,
) -> bool {
    &&& after.len() == before.len()
    &&& forall|c: int|
        0 <= c < after.len() ==> {
            let own = members(dist, vectors, before, c, vectors.len() as int);
            if own.len() > 0 {
                #[trigger] after[c] == metric::mean_of(dist, own)
            } else {
                vectors.contains(after[c])
            }
        }
}

/// The weights by which centroid `c` is drawn: how far each vector is from the centroids
/// before it.
pub open spec fn weights_before<D: Distance>(
    dist: D,
    vectors: Seq<Seq<u32>>,
    centroids: Seq<Seq<u32>>,
    c: int,
) -> Seq<u32> {
    Seq::new(vectors.len(), |i: int| gap(dist, vectors[i], centroids, c))
}

/// Position `r` is the first at which the running sum of the weights reaches a
/// threshold, or the last where it never does.
pub open spec fn is_picked<D: Distance>(dist: D, weights: Seq<u32>, threshold: u32, r: int) -> bool {
    &&& 0 <= r < weights.len()
    &&& forall|i: int|
        0 < i <= r ==> !word::at_most(threshold, #[trigger] weight_sum(dist, weights, i))
    &&& r < weights.len() - 1 ==> word::at_most(threshold, weight_sum(dist, weights, r + 1))
}

/// Centroid `c` is vector `i`, drawn by a threshold, or freely when nothing weighs.
pub open spec fn is_drawn<D: Distance>(
    dist: D,
    vectors: Seq<Seq<u32>>,
    centroids: Seq<Seq<u32>>,
    c: int,
    threshold: u32,
    i: int,
) -> bool {
    let weights = weights_before(dist, vectors, centroids, c);
    &&& 0 <= i < vectors.len()
    &&& centroids[c] == vectors[i]
    &&& word::order(weight_sum(dist, weights, weights.len() as int)) != 0 ==> is_picked(
        dist,
        weights,
        threshold,
        i,
    )
}

/// Centroid `c` was drawn by some threshold.
pub open spec fn was_drawn<D: Distance>(
    dist: D,
    vectors: Seq<Seq<u32>>,
    centroids: Seq<Seq<u32>>,
    c: int,
) -> bool {
    exists|threshold: u32, i: int| #[trigger]
        is_drawn(dist, vectors, centroids, c, threshold, i)
}

/// Centroids to start from: a vector, others drawn by their distance from those before,
/// and these repeated in turn where there are fewer vectors than `k`.
pub open spec fn is_start<D: Distance>(
    dist: D,
    vectors: Seq<Seq<u32>>,
    k: int,
    centroids: Seq<Seq<u32>>,
) -> bool {
    &&& centroids.len() == k
    &&& forall|c: int| 0 <= c < k ==> vectors.contains(#[trigger] centroids[c])
    &&& forall|c: int|
        0 < c < k && c < vectors.len() ==> #[trigger] was_drawn(dist, vectors, centroids, c)
    &&& forall|c: int|
        vectors.len() <= c < k ==> #[trigger] centroids[c] == centroids[c % (vectors.len() as int)]
}

/// The centroids are reached from a start by `iterations` improvements.
pub open spec fn clustered<D: Distance>(
    dist: D,
    vectors: Seq<Seq<u32>>,
    k: int,
    iterations: int,
    steps: Seq<Seq<Seq<u32>>>,
    centroids: Seq<Seq<u32>>,
) -> bool {
    &&& steps.len() == iterations + 1
    &&& is_start(dist, vectors, k, steps[0])
    &&& forall|i: int|
        0 < i < steps.len() ==> improved(dist, vectors, steps[i - 1], #[trigger] steps[i])
    &&& steps.last() == centroids
}

/// The centroids are an outcome of clustering.
pub open spec fn clusters<D: Distance>(
    dist: D,
    vectors: Seq<Seq<u32>>,
    k: int,
    iterations: int,
    centroids: Seq<Seq<u32>>,
) -> bool {
    exists|steps: Seq<Seq<Seq<u32>>>| #[trigger]
        clustered(dist, vectors, k, iterations, steps, centroids)
}

/// All rows have one length.
pub open spec fn level(table: Seq<Vec<u32>>, dim: int) -> bool {
    forall|i: int| 0 <= i < table.len() ==> (#[trigger] table[i])@.len() == dim
}

/// The nearest centroid of a vector.
pub fn assign<D: Distance>(dist: D, v: &[u32], centroids: &Vec<Vec<u32>>) -> (r: (usize, u32))
    requires
        level(centroids@, v@.len() as int),
    ensures
        (r.0 as int, r.1) == nearest_centroid(
            dist,
            v@,
            metric::rows(centroids@),
            centroids@.len() as int,
        ),
        r.0 < centroids@.len() || r.0 == 0,
{
    let mut best: usize = 0;
    let mut best_dist: u32 = FARTHEST;
    let mut c: usize = 0;
    while c < centroids.len()
        invariant
            c <= centroids@.len(),
            level(centroids@, v@.len() as int),
            (best as int, best_dist) == nearest_centroid(
                dist,
                v@,
                metric::rows(centroids@),
                c as int,
            ),
            best < centroids@.len() || best == 0,
        decreases centroids@.len() - c,
    {
        assert(centroids@[c as int]@.len() == v@.len());
        assert(metric::rows(centroids@)[c as int] == centroids@[c as int]@);
        let d: u32 = dist.square_l2(v, &centroids[c]);
        if word::lt(d, best_dist) {
            best = c;
            best_dist = d;
        }
        c = c + 1;
    }
    (best, best_dist)
}

/// The distances of vectors from the nearest of the centroids chosen so far.
pub fn gaps<D: Distance>(dist: D, vectors: &Vec<Vec<u32>>, centroids: &Vec<Vec<u32>>) -> (r: Vec<
    u32,
>)
    requires
        vectors@.len() > 0,
        level(vectors@, vectors@[0]@.len() as int),
        level(centroids@, vectors@[0]@.len() as int),
    ensures
        r@.len() == vectors@.len(),
        forall|i: int|
            0 <= i < r@.len() ==> #[trigger] r@[i] == gap(
                dist,
                vectors@[i]@,
                metric::rows(centroids@),
                centroids@.len() as int,
            ),
{
    let mut r: Vec<u32> = Vec::new();
    let mut i: usize = 0;
    while i < vectors.len()
        invariant
            i <= vectors@.len(),
            vectors@.len() > 0,
            level(vectors@, vectors@[0]@.len() as int),
            level(centroids@, vectors@[0]@.len() as int),
            r@.len() == i,
            forall|j: int|
                0 <= j < i ==> #[trigger] r@[j] == gap(
                    dist,
                    vectors@[j]@,
                    metric::rows(centroids@),
                    centroids@.len() as int,
                ),
        decreases vectors@.len() - i,
    {
        assert(vectors@[i as int]@.len() == vectors@[0]@.len());
        let mut d: u32 = FARTHEST;
        let mut c: usize = 0;
        while c < centroids.len()
            invariant
                c <= centroids@.len(),
                i < vectors@.len(),
                vectors@[i as int]@.len() == vectors@[0]@.len(),
                level(centroids@, vectors@[0]@.len() as int),
                d == gap(dist, vectors@[i as int]@, metric::rows(centroids@), c as int),
            decreases centroids@.len() - c,
        {
            assert(centroids@[c as int]@.len() == vectors@[0]@.len());
            assert(metric::rows(centroids@)[c as int] == centroids@[c as int]@);
            d = word::min(d, dist.square_l2(&vectors[i], &centroids[c]));
            c = c + 1;
        }
        r.push(d);
        i = i + 1;
    }
    r
}

/// The least distance of `v` from the first `upto` centroids.
pub open spec fn gap<D: Distance>(
    dist: D,
    v: Seq<u32>,
    centroids: Seq<Seq<u32>>,
    upto: int,
) -> u32
    decreases upto,
{
    if upto <= 0 {
        FARTHEST
    } else {
        word::min_of(
            gap(dist, v, centroids, upto - 1),
            dist.square_l2_spec(v, centroids[upto - 1]),
        )
    }
}

/// The sum of the first `upto` weights, added in turn.
pub open spec fn weight_sum<D: Distance>(dist: D, weights: Seq<u32>, upto: int) -> u32
    decreases upto,
{
    if upto <= 0 {
        word::ZERO
    } else {
        dist.sum_spec(weight_sum(dist, weights, upto - 1), weights[upto - 1])
    }
}

/// The sum of weights.
pub fn total_weight<D: Distance>(dist: D, weights: &Vec<u32>) -> (r: u32)
    ensures
        r == weight_sum(dist, weights@, weights@.len() as int),
{
    let mut sum: u32 = word::ZERO;
    let mut i: usize = 0;
    while i < weights.len()
        invariant
            i <= weights@.len(),
            sum == weight_sum(dist, weights@, i as int),
        decreases weights@.len() - i,
    {
        sum = dist.sum(sum, weights[i]);
        i = i + 1;
    }
    sum
}

/// The first position at which the running sum of the weights reaches `threshold`, and
/// the last position when it never does.
pub fn pick_weighted<D: Distance>(dist: D, weights: &Vec<u32>, threshold: u32) -> (r: usize)
    requires
        weights@.len() > 0,
    ensures
        is_picked(dist, weights@, threshold, r as int),
{
    let mut sum: u32 = word::ZERO;
    let mut i: usize = 0;
    while i < weights.len()
        invariant
            i <= weights@.len(),
            sum == weight_sum(dist, weights@, i as int),
            forall|j: int|
                0 < j <= i ==> !word::at_most(threshold, #[trigger] weight_sum(dist, weights@, j)),
        decreases weights@.len() - i,
    {
        sum = dist.sum(sum, weights[i]);
        if word::le(threshold, sum) {
            return i;
        }
        i = i + 1;
    }
    weights.len() - 1
}

/// How far a vector is from the first centroids depends on these alone.
proof fn lemma_same_gap<D: Distance>(
    dist: D,
    v: Seq<u32>,
    a: Seq<Seq<u32>>,
    b: Seq<Seq<u32>>,
    upto: int,
)
    requires
        upto <= a.len(),
        upto <= b.len(),
        forall|i: int| 0 <= i < upto ==> #[trigger] a[i] == b[i],
    ensures
        gap(dist, v, a, upto) == gap(dist, v, b, upto),
    decreases upto,
{
    if upto > 0 {
        lemma_same_gap(dist, v, a, b, upto - 1);
    }
}

/// How a centroid was drawn depends on those before it and on itself.
proof fn lemma_still_drawn<D: Distance>(
    dist: D,
    vectors: Seq<Seq<u32>>,
    a: Seq<Seq<u32>>,
    b: Seq<Seq<u32>>,
    c: int,
    threshold: u32,
    i: int,
)
    requires
        is_drawn(dist, vectors, a, c, threshold, i),
        0 <= c < a.len(),
        c < b.len(),
        forall|j: int| 0 <= j <= c ==> #[trigger] a[j] == b[j],
    ensures
        is_drawn(dist, vectors, b, c, threshold, i),
{
    assert forall|j: int| 0 <= j < vectors.len() implies gap(dist, vectors[j], a, c) == gap(
        dist,
        vectors[j],
        b,
        c,
    ) by {
        lemma_same_gap(dist, vectors[j], a, b, c);
    }
    assert(weights_before(dist, vectors, a, c) =~= weights_before(dist, vectors, b, c));
}

/// The first `upto` centroids, but for the first of all, were drawn.
spec fn are_drawn<D: Distance>(
    dist: D,
    vectors: Seq<Seq<u32>>,
    centroids: Seq<Seq<u32>>,
    upto: int,
) -> bool {
    forall|c: int|
        0 < c < upto ==> #[trigger] was_drawn(dist, vectors, centroids, c)
}

proof fn lemma_draws_stay<D: Distance>(
    dist: D,
    vectors: Seq<Seq<u32>>,
    a: Seq<Seq<u32>>,
    b: Seq<Seq<u32>>,
    upto: int,
)
    requires
        are_drawn(dist, vectors, a, upto),
        upto <= a.len() <= b.len(),
        forall|j: int| 0 <= j < a.len() ==> #[trigger] a[j] == b[j],
    ensures
        are_drawn(dist, vectors, b, upto),
{
    assert forall|c: int| 0 < c < upto implies #[trigger] was_drawn(dist, vectors, b, c) by {
        assert(was_drawn(dist, vectors, a, c));
        let (threshold, i) = choose|threshold: u32, i: int| #[trigger]
            is_drawn(dist, vectors, a, c, threshold, i);
        lemma_still_drawn(dist, vectors, a, b, c, threshold, i);
    }
}

proof fn lemma_row_contained(vectors: Seq<Vec<u32>>, i: int)
    requires
        0 <= i < vectors.len(),
    ensures
        metric::rows(vectors).contains(vectors[i]@),
{
    assert(metric::rows(vectors)[i] == vectors[i]@);
}

/// Random centroids to start from: each after the first is drawn with a weight that
/// grows with its distance from those drawn before.
#[verifier::rlimit(40)]
fn start<D: Distance>(dist: D, vectors: &Vec<Vec<u32>>, k: usize) -> (centroids: Vec<Vec<u32>>)
    requires
        vectors@.len() > 0,
        level(vectors@, vectors@[0]@.len() as int),
        k > 0,
    ensures
        level(centroids@, vectors@[0]@.len() as int),
        is_start(dist, metric::rows(vectors@), k as int, metric::rows(centroids@)),
{
    let n: usize = vectors.len();
    let ghost all = metric::rows(vectors@);
    let effective: usize = if k <= n {
        k
    } else {
        n
    };
    let mut centroids: Vec<Vec<u32>> = Vec::new();
    let first: usize = random_below(n);
    centroids.push(vectors[first].clone());
    proof {
        lemma_row_contained(vectors@, first as int);
        assert(vectors@[first as int]@.len() == vectors@[0]@.len());
    }
    while centroids.len() < effective
        invariant
            n == vectors@.len(),
            n > 0,
            all == metric::rows(vectors@),
            0 < centroids@.len() <= effective <= n,
            level(vectors@, vectors@[0]@.len() as int),
            level(centroids@, vectors@[0]@.len() as int),
            are_drawn(dist, all, metric::rows(centroids@), centroids@.len() as int),
            forall|c: int|
                0 <= c < centroids@.len() ==> all.contains((#[trigger] centroids@[c])@),
        decreases effective - centroids@.len(),
    {
        let weights = gaps(dist, vectors, &centroids);
        let total: u32 = total_weight(dist, &weights);
        let mut threshold: u32 = word::ZERO;
        let i: usize = if word::order_of(total) == 0 {
            random_below(n)
        } else {
            threshold = dist.portion(total);
            pick_weighted(dist, &weights, threshold)
        };
        let ghost before = metric::rows(centroids@);
        proof {
            lemma_row_contained(vectors@, i as int);
            assert(vectors@[i as int]@.len() == vectors@[0]@.len());
        }
        centroids.push(vectors[i].clone());
        proof {
            let now = metric::rows(centroids@);
            let c = before.len() as int;
            assert forall|j: int| 0 <= j < n implies gap(dist, all[j], before, c) == gap(
                dist,
                all[j],
                now,
                c,
            ) by {
                lemma_same_gap(dist, all[j], before, now, c);
            }
            assert(weights_before(dist, all, now, c) =~= weights@);
            assert(is_drawn(dist, all, now, c, threshold, i as int));
            lemma_draws_stay(dist, all, before, now, c);
            assert forall|e: int| 0 < e < c + 1 implies #[trigger] was_drawn(dist, all, now, e) by {}
        }
    }
    while centroids.len() < k
        invariant
            n == vectors@.len(),
            n > 0,
            all == metric::rows(vectors@),
            k > 0,
            effective == if k <= n {
                k
            } else {
                n
            },
            effective <= centroids@.len() <= k,
            level(vectors@, vectors@[0]@.len() as int),
            level(centroids@, vectors@[0]@.len() as int),
            are_drawn(dist, all, metric::rows(centroids@), effective as int),
            forall|c: int|
                0 <= c < centroids@.len() ==> all.contains((#[trigger] centroids@[c])@),
            forall|c: int|
                n <= c < centroids@.len() ==> (#[trigger] centroids@[c])@ == centroids@[c
                    % (n as int)]@,
        decreases k - centroids@.len(),
    {
        let i: usize = centroids.len() % effective;
        let copy: Vec<u32> = centroids[i].clone();
        assert(centroids@[i as int]@.len() == vectors@[0]@.len());
        assert(all.contains(centroids@[i as int]@));
        let ghost before = centroids@;
        centroids.push(copy);
        proof {
            lemma_draws_stay(
                dist,
                all,
                metric::rows(before),
                metric::rows(centroids@),
                effective as int,
            );
            assert forall|c: int| n <= c < centroids@.len() implies (#[trigger] centroids@[c])@
                == centroids@[c % (n as int)]@ by {
                let m = c % (n as int);
                assert(0 <= m < n);
                assert(m < before.len());
                assert(centroids@[m] == before[m]);
                if c < before.len() {
                    assert(before[c]@ == before[m]@);
                }
            }
        }
    }
    proof {
        let got = metric::rows(centroids@);
        assert forall|c: int| 0 <= c < k implies all.contains(#[trigger] got[c]) by {
            assert(got[c] == centroids@[c]@);
        }
        assert forall|c: int| all.len() <= c < k implies #[trigger] got[c] == got[c
            % (all.len() as int)] by {
            assert(got[c] == centroids@[c]@);
            let m = c % (n as int);
            assert(0 <= m < n);
            assert(got[m] == centroids@[m]@);
        }
    }
    centroids
}

/// The vectors that were assigned to cluster `c`.
fn gather(vectors: &Vec<Vec<u32>>, assigned: &Vec<usize>, c: usize) -> (own: Vec<Vec<u32>>)
    requires
        assigned@.len() == vectors@.len(),
    ensures
        metric::rows(own@) == picked(metric::rows(vectors@), assigned@, c as int, vectors@.len() as int),
        forall|dim: int| #[trigger] level(vectors@, dim) ==> level(own@, dim),
{
    let mut own: Vec<Vec<u32>> = Vec::new();
    let mut i: usize = 0;
    assert(metric::rows(own@) =~= Seq::empty());
    while i < vectors.len()
        invariant
            i <= vectors@.len() == assigned@.len(),
            metric::rows(own@) == picked(metric::rows(vectors@), assigned@, c as int, i as int),
            forall|dim: int| #[trigger] level(vectors@, dim) ==> level(own@, dim),
        decreases vectors@.len() - i,
    {
        if assigned[i] == c {
            let ghost before = own@;
            own.push(vectors[i].clone());
            proof {
                assert(metric::rows(own@) =~= metric::rows(before).push(vectors@[i as int]@));
                assert forall|dim: int| #[trigger] level(vectors@, dim) implies level(own@, dim) by {
                    assert(vectors@[i as int]@.len() == dim);
                }
            }
        }
        i = i + 1;
    }
    own
}

/// The first `upto` vectors whose assignment is `c`.
pub open spec fn picked(
    vectors: Seq<Seq<u32>>,
    assigned: Seq<usize>,
    c: int,
    upto: int,
) -> Seq<Seq<u32>>
    decreases upto,
{
    if upto <= 0 {
        Seq::empty()
    } else if assigned[upto - 1] == c {
        picked(vectors, assigned, c, upto - 1).push(vectors[upto - 1])
    } else {
        picked(vectors, assigned, c, upto - 1)
    }
}

proof fn lemma_picked_is_members<D: Distance>(
    dist: D,
    vectors: Seq<Seq<u32>>,
    centroids: Seq<Seq<u32>>,
    assigned: Seq<usize>,
    c: int,
    upto: int,
)
    requires
        0 <= upto <= vectors.len(),
        assigned.len() == vectors.len(),
        forall|i: int|
            0 <= i < assigned.len() ==> #[trigger] assigned[i] == cluster_of(
                dist,
                vectors,
                centroids,
                i,
            ),
    ensures
        picked(vectors, assigned, c, upto) == members(dist, vectors, centroids, c, upto),
    decreases upto,
{
    if upto > 0 {
        lemma_picked_is_members(dist, vectors, centroids, assigned, c, upto - 1);
        assert(assigned[upto - 1] == cluster_of(dist, vectors, centroids, upto - 1));
    }
}

#[verifier::rlimit(40)]
fn improve<D: Distance>(dist: D, vectors: &Vec<Vec<u32>>, centroids: &Vec<Vec<u32>>) -> (r: Vec<
    Vec<u32>,
>)
    requires
        vectors@.len() > 0,
        centroids@.len() > 0,
        level(vectors@, vectors@[0]@.len() as int),
        level(centroids@, vectors@[0]@.len() as int),
    ensures
        level(r@, vectors@[0]@.len() as int),
        improved(dist, metric::rows(vectors@), metric::rows(centroids@), metric::rows(r@)),
{
    let ghost all = metric::rows(vectors@);
    let ghost old = metric::rows(centroids@);
    let mut assigned: Vec<usize> = Vec::new();
    let mut i: usize = 0;
    while i < vectors.len()
        invariant
            i <= vectors@.len(),
            vectors@.len() > 0,
            level(vectors@, vectors@[0]@.len() as int),
            level(centroids@, vectors@[0]@.len() as int),
            all == metric::rows(vectors@),
            old == metric::rows(centroids@),
            assigned@.len() == i,
            forall|j: int|
                0 <= j < i ==> #[trigger] assigned@[j] == cluster_of(dist, all, old, j),
        decreases vectors@.len() - i,
    {
        assert(vectors@[i as int]@.len() == vectors@[0]@.len());
        assert(all[i as int] == vectors@[i as int]@);
        let (c, _) = assign(dist, vectors[i].as_slice(), centroids);
        assigned.push(c);
        i = i + 1;
    }
    let mut r: Vec<Vec<u32>> = Vec::new();
    let mut c: usize = 0;
    while c < centroids.len()
        invariant
            c <= centroids@.len(),
            vectors@.len() > 0,
            level(vectors@, vectors@[0]@.len() as int),
            all == metric::rows(vectors@),
            assigned@.len() == vectors@.len(),
            forall|j: int|
                0 <= j < assigned@.len() ==> #[trigger] assigned@[j] == cluster_of(
                    dist,
                    all,
                    old,
                    j,
                ),
            r@.len() == c,
            level(r@, vectors@[0]@.len() as int),
            forall|d: int|
                0 <= d < c ==> {
                    let own = members(dist, all, old, d, all.len() as int);
                    if own.len() > 0 {
                        (#[trigger] r@[d])@ == metric::mean_of(dist, own)
                    } else {
                        all.contains(r@[d]@)
                    }
                },
        decreases centroids@.len() - c,
    {
        let own = gather(vectors, &assigned, c);
        proof {
            lemma_picked_is_members(dist, all, old, assigned@, c as int, all.len() as int);
            assert(level(own@, vectors@[0]@.len() as int));
        }
        if own.len() > 0 {
            assert(own@[0]@.len() == vectors@[0]@.len());
            let m = metric::mean(dist, &own);
            r.push(m);
        } else {
            let i: usize = random_below(vectors.len());
            proof {
                lemma_row_contained(vectors@, i as int);
                assert(vectors@[i as int]@.len() == vectors@[0]@.len());
                assert(metric::rows(own@).len() == 0);
            }
            r.push(vectors[i].clone());
        }
        c = c + 1;
    }
    proof {
        let new = metric::rows(r@);
        assert forall|d: int| 0 <= d < new.len() implies {
            let own = members(dist, all, old, d, all.len() as int);
            if own.len() > 0 {
                #[trigger] new[d] == metric::mean_of(dist, own)
            } else {
                all.contains(new[d])
            }
        } by {
            assert(new[d] == r@[d]@);
        }
    }
    r
}

/// Finds `k` centroids of vectors by `iterations` improvements of a random start.
pub fn kmeans<D: Distance>(dist: D, vectors: &Vec<Vec<u32>>, k: usize, iterations: usize) -> (r: Vec<
    Vec<u32>,
>)
    requires
        vectors@.len() > 0,
        level(vectors@, vectors@[0]@.len() as int),
        k > 0,
    ensures
        r@.len() == k,
        level(r@, vectors@[0]@.len() as int),
        clusters(
            dist,
            metric::rows(vectors@),
            k as int,
            iterations as int,
            metric::rows(r@),
        ),
{
    let mut centroids = start(dist, vectors, k);
    let ghost all = metric::rows(vectors@);
    let ghost mut steps: Seq<Seq<Seq<u32>>> = seq![metric::rows(centroids@)];
    let mut done: usize = 0;
    while done < iterations
        invariant
            done <= iterations,
            k > 0,
            vectors@.len() > 0,
            all == metric::rows(vectors@),
            level(vectors@, vectors@[0]@.len() as int),
            level(centroids@, vectors@[0]@.len() as int),
            centroids@.len() == k,
            clustered(
                dist,
                all,
                k as int,
                done as int,
                steps,
                metric::rows(centroids@),
            ),
        decreases iterations - done,
    {
        let next = improve(dist, vectors, &centroids);
        proof {
            let before = steps;
            steps = before.push(metric::rows(next@));
            assert forall|i: int| 0 < i < steps.len() implies improved(
                dist,
                all,
                steps[i - 1],
                #[trigger] steps[i],
            ) by {
                if i < before.len() {
                    assert(steps[i] == before[i] && steps[i - 1] == before[i - 1]);
                } else {
                    assert(steps[i - 1] == before.last());
                }
            }
            assert(steps[0] == before[0]);
        }
        centroids = next;
        done = done + 1;
    }
    centroids
}

} // verus!
