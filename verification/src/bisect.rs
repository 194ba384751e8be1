//! Cutting a cluster of vectors in two.
use crate::kmeans;
use crate::metric::Distance;
use crate::word;
use vstd::prelude::*;

verus! {

/// How often vectors are assigned to the two centroids at most.
pub const BISECT_ROUNDS: usize = 5;

/// The sum of component `j` over the vectors on one side, among the first `upto`.
pub open spec fn side_sum<D: Distance>(
    dist: D,
    vs: Seq<Vec<u32>>,
    side: Seq<bool>,
    which: bool,
    j: int,
    upto: int,
) -> u32
    decreases upto,
{
    if upto <= 0 {
        word::ZERO
    } else if side[upto - 1] == which {
        dist.sum_spec(side_sum(dist, vs, side, which, j, upto - 1), vs[upto - 1]@[j])
    } else {
        side_sum(dist, vs, side, which, j, upto - 1)
    }
}

/// How many of the first `upto` vectors are on one side.
pub open spec fn side_count(side: Seq<bool>, which: bool, upto: int) -> int
    decreases upto,
{
    if upto <= 0 {
        0
    } else if side[upto - 1] == which {
        side_count(side, which, upto - 1) + 1
    } else {
        side_count(side, which, upto - 1)
    }
}

/// The mean of the vectors on one side; zero when there are none.
pub open spec fn side_mean<D: Distance>(
    dist: D,
    vs: Seq<Vec<u32>>,
    side: Seq<bool>,
    which: bool,
) -> Seq<u32> {
    let n = side_count(side, which, vs.len() as int);
    Seq::new(
        vs[0]@.len(),
        |j: int|
            dist.quotient_spec(
                side_sum(dist, vs, side, which, j, vs.len() as int),
                dist.count_spec(
                    if n > 1 {
                        n as usize
                    } else {
                        1
                    },
                ),
            ),
    )
}

/// All vectors are on one side.
pub open spec fn one_sided(side: Seq<bool>) -> bool {
    (forall|i: int| 0 <= i < side.len() ==> #[trigger] side[i]) || (forall|i: int|
        0 <= i < side.len() ==> !#[trigger] side[i])
}

/// Two centroids.
pub struct Pair {
    pub low: Seq<u32>,
    pub high: Seq<u32>,
}

/// Which vectors are nearer to the second centroid.
pub open spec fn sides<D: Distance>(dist: D, vs: Seq<Vec<u32>>, c: Pair) -> Seq<bool> {
    Seq::new(
        vs.len(),
        |i: int| word::less(dist.eval_spec(vs[i]@, c.high), dist.eval_spec(vs[i]@, c.low)),
    )
}

/// The means of the two sides.
pub open spec fn side_means<D: Distance>(dist: D, vs: Seq<Vec<u32>>, side: Seq<bool>) -> Pair {
    Pair { low: side_mean(dist, vs, side, false), high: side_mean(dist, vs, side, true) }
}

/// The vectors are assigned to the centroids, and the centroids moved to the means, a
/// number of times, or until all vectors are on one side.
pub open spec fn settled<D: Distance>(
    dist: D,
    vs: Seq<Vec<u32>>,
    c: Pair,
    rounds: int,
) -> (Pair, Seq<bool>)
    decreases rounds,
{
    let side = sides(dist, vs, c);
    if one_sided(side) {
        (c, side)
    } else if rounds <= 1 {
        (side_means(dist, vs, side), side)
    } else {
        settled(dist, vs, side_means(dist, vs, side), rounds - 1)
    }
}

/// The last of the vectors farthest from the first, among the first `upto`.
pub open spec fn farthest<D: Distance>(dist: D, vs: Seq<Vec<u32>>, upto: int) -> int
    decreases upto,
{
    if upto <= 1 {
        0
    } else if upto == 2 {
        1
    } else {
        let best = farthest(dist, vs, upto - 1);
        if word::less(
            dist.eval_spec(vs[0]@, vs[upto - 1]@),
            dist.eval_spec(vs[0]@, vs[best]@),
        ) {
            best
        } else {
            upto - 1
        }
    }
}

/// The second half of `n` on one side.
pub open spec fn halves(n: int) -> Seq<bool> {
    Seq::new(n as nat, |i: int| i >= n / 2)
}

/// How vectors are cut in two: the centroids of the two sides, and who is on the second.
pub open spec fn bisected<D: Distance>(dist: D, vs: Seq<Vec<u32>>) -> (Pair, Seq<bool>) {
    let far = farthest(dist, vs, vs.len() as int);
    let (c, side) = settled(
        dist,
        vs,
        Pair { low: vs[0]@, high: vs[far]@ },
        BISECT_ROUNDS as int,
    );
    if one_sided(side) {
        let side = halves(vs.len() as int);
        (side_means(dist, vs, side), side)
    } else {
        (c, side)
    }
}

fn mean_of_side<D: Distance>(dist: D, vs: &Vec<Vec<u32>>, side: &Vec<bool>, which: bool) -> (r: Vec<
    u32,
>)
    requires
        vs@.len() > 0,
        kmeans::level(vs@, vs@[0]@.len() as int),
        side@.len() == vs@.len(),
    ensures
        r@ == side_mean(dist, vs@, side@, which),
{
    let n: usize = vs.len();
    let dim: usize = vs[0].len();
    let mut many: usize = 0;
    let mut i: usize = 0;
    while i < n
        invariant
            i <= n == vs@.len() == side@.len(),
            many == side_count(side@, which, i as int),
            many <= i,
        decreases n - i,
    {
        if side[i] == which {
            many = many + 1;
        }
        i = i + 1;
    }
    let divisor: u32 = dist.count(
        if many > 1 {
            many
        } else {
            1
        },
    );
    let mut r: Vec<u32> = Vec::new();
    let mut j: usize = 0;
    while j < dim
        invariant
            j <= dim,
            n == vs@.len() == side@.len(),
            n > 0,
            dim == vs@[0]@.len(),
            kmeans::level(vs@, dim as int),
            many == side_count(side@, which, n as int),
            divisor == dist.count_spec(
                if many > 1 {
                    many
                } else {
                    1
                },
            ),
            r@.len() == j,
            forall|k: int| 0 <= k < j ==> #[trigger] r@[k] == side_mean(dist, vs@, side@, which)[k],
        decreases dim - j,
    {
        let mut total: u32 = word::ZERO;
        let mut i: usize = 0;
        while i < n
            invariant
                i <= n == vs@.len() == side@.len(),
                j < dim,
                kmeans::level(vs@, dim as int),
                total == side_sum(dist, vs@, side@, which, j as int, i as int),
            decreases n - i,
        {
            assert(vs@[i as int]@.len() == dim);
            if side[i] == which {
                total = dist.sum(total, vs[i][j]);
            }
            i = i + 1;
        }
        r.push(dist.quotient(total, divisor));
        j = j + 1;
    }
    assert(r@ =~= side_mean(dist, vs@, side@, which));
    r
}

fn is_one_sided(side: &Vec<bool>) -> (r: bool)
    ensures
        r == one_sided(side@),
{
    let mut some: bool = false;
    let mut all: bool = true;
    let mut i: usize = 0;
    while i < side.len()
        invariant
            i <= side@.len(),
            all == (forall|k: int| 0 <= k < i ==> #[trigger] side@[k]),
            !some == (forall|k: int| 0 <= k < i ==> !#[trigger] side@[k]),
        decreases side@.len() - i,
    {
        if side[i] {
            some = true;
        } else {
            all = false;
        }
        i = i + 1;
    }
    all || !some
}

fn find_farthest<D: Distance>(dist: D, vs: &Vec<Vec<u32>>) -> (r: usize)
    requires
        vs@.len() > 0,
        kmeans::level(vs@, vs@[0]@.len() as int),
    ensures
        r == farthest(dist, vs@, vs@.len() as int),
        r < vs@.len(),
{
    let n: usize = vs.len();
    if n == 1 {
        return 0;
    }
    assert(vs@[1]@.len() == vs@[0]@.len());
    let mut best: usize = 1;
    let mut most: u32 = dist.eval(vs[0].as_slice(), vs[1].as_slice());
    let mut i: usize = 2;
    while i < n
        invariant
            2 <= i <= n == vs@.len(),
            kmeans::level(vs@, vs@[0]@.len() as int),
            best < i,
            best == farthest(dist, vs@, i as int),
            most == dist.eval_spec(vs@[0]@, vs@[best as int]@),
        decreases n - i,
    {
        assert(vs@[i as int]@.len() == vs@[0]@.len());
        let d: u32 = dist.eval(vs[0].as_slice(), vs[i].as_slice());
        if !word::lt(d, most) {
            best = i;
            most = d;
        }
        i = i + 1;
    }
    best
}

/// Cuts vectors in two, each side near its own mean. Returns the two means, and for each
/// vector whether it is on the second side.
#[verifier::rlimit(40)]
pub fn kmeans2<D: Distance>(vs: &Vec<Vec<u32>>, dist: D) -> (r: (Vec<u32>, Vec<u32>, Vec<bool>))
    requires
        vs@.len() > 0,
        kmeans::level(vs@, vs@[0]@.len() as int),
    ensures
        r.0@ == bisected(dist, vs@).0.low,
        r.1@ == bisected(dist, vs@).0.high,
        r.2@ == bisected(dist, vs@).1,
        r.0@.len() == vs@[0]@.len(),
        r.1@.len() == vs@[0]@.len(),
        r.2@.len() == vs@.len(),
        vs@.len() >= 2 ==> !one_sided(r.2@),
{
    let n: usize = vs.len();
    let dim: usize = vs[0].len();
    let far: usize = find_farthest(dist, vs);
    assert(vs@[far as int]@.len() == dim);
    let mut low: Vec<u32> = vs[0].clone();
    let mut high: Vec<u32> = vs[far].clone();
    assert(low@ =~= vs@[0]@);
    assert(high@ =~= vs@[far as int]@);
    let ghost begin = Pair { low: vs@[0]@, high: vs@[far as int]@ };
    let ghost want = settled(dist, vs@, begin, BISECT_ROUNDS as int);
    let mut side: Vec<bool> = Vec::new();
    let mut done: bool = false;
    let mut round: usize = 0;
    while round < BISECT_ROUNDS && !done
        invariant
            round <= BISECT_ROUNDS,
            n == vs@.len(),
            n > 0,
            dim == vs@[0]@.len(),
            kmeans::level(vs@, dim as int),
            low@.len() == dim,
            high@.len() == dim,
            round > 0 ==> side@.len() == n,
            done ==> round > 0 && one_sided(side@),
            !done && round > 0 ==> !one_sided(side@),
            if done || round == BISECT_ROUNDS {
                want == (Pair { low: low@, high: high@ }, side@)
            } else {
                want == settled(
                    dist,
                    vs@,
                    Pair { low: low@, high: high@ },
                    BISECT_ROUNDS - round,
                )
            },
        decreases BISECT_ROUNDS - round, if done { 0int } else { 1int },
    {
        let ghost c = Pair { low: low@, high: high@ };
        let mut next: Vec<bool> = Vec::new();
        let mut i: usize = 0;
        while i < n
            invariant
                i <= n == vs@.len(),
                kmeans::level(vs@, dim as int),
                low@.len() == dim,
                high@.len() == dim,
                c == (Pair { low: low@, high: high@ }),
                next@.len() == i,
                forall|k: int| 0 <= k < i ==> #[trigger] next@[k] == sides(dist, vs@, c)[k],
            decreases n - i,
        {
            assert(vs@[i as int]@.len() == dim);
            let to_high: u32 = dist.eval(vs[i].as_slice(), high.as_slice());
            let to_low: u32 = dist.eval(vs[i].as_slice(), low.as_slice());
            next.push(word::lt(to_high, to_low));
            i = i + 1;
        }
        assert(next@ =~= sides(dist, vs@, c));
        side = next;
        if is_one_sided(&side) {
            done = true;
        } else {
            low = mean_of_side(dist, vs, &side, false);
            high = mean_of_side(dist, vs, &side, true);
        }
        round = round + 1;
    }
    if is_one_sided(&side) {
        let mut half: Vec<bool> = Vec::new();
        let mut i: usize = 0;
        while i < n
            invariant
                i <= n,
                half@.len() == i,
                forall|k: int| 0 <= k < i ==> #[trigger] half@[k] == (k >= n / 2),
            decreases n - i,
        {
            half.push(i >= n / 2);
            i = i + 1;
        }
        assert(half@ =~= halves(n as int));
        low = mean_of_side(dist, vs, &half, false);
        high = mean_of_side(dist, vs, &half, true);
        proof {
            if n >= 2 {
                assert(!half@[0]);
                assert(half@[n - 1]);
            }
        }
        return (low, high, half);
    }
    (low, high, side)
}

} // verus!
