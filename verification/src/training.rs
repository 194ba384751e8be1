//! What training finds: means, clusters, ranges and directions.
use crate::bits;
use crate::bytes;
use crate::kmeans;
use crate::metric;
use crate::metric::Distance;
use crate::rabitq;
use crate::rabitq::RaBitQ;
use crate::rabitq::RaBitQQuery;
use crate::random;
use crate::rotation;
use crate::sq;
use crate::sq::Int8Quantizer;
use crate::word;
use vstd::prelude::*;

verus! {

/// Component `j` of the first `upto` vectors, added in turn to zero.
pub open spec fn total<D: Distance>(dist: D, table: Seq<Seq<u32>>, j: int, upto: nat) -> u32
    decreases upto,
{
    if upto == 0 {
        0
    } else {
        dist.sum_spec(total(dist, table, j, (upto - 1) as nat), table[upto - 1][j])
    }
}

proof fn lemma_total<D: Distance>(dist: D, table: Seq<Seq<u32>>, j: int, upto: nat)
    ensures
        metric::column_sum(dist, table, j, upto as int) == total(dist, table, j, upto),
    decreases upto,
{
    if upto > 0 {
        lemma_total(dist, table, j, (upto - 1) as nat);
    }
}

/// Each component of the mean is the total over all vectors, divided by their number.
pub proof fn means_divide_totals<D: Distance>(dist: D, table: Seq<Seq<u32>>, j: int)
    requires
        0 < table.len() <= usize::MAX,
        0 <= j < table[0].len(),
    ensures
        metric::mean_of(dist, table).len() == table[0].len(),
        metric::mean_of(dist, table)[j] == dist.quotient_spec(
            total(dist, table, j, table.len()),
            dist.count_spec(table.len() as usize),
        ),
{
    lemma_total(dist, table, j, table.len());
}

/// The squared distance of a vector from a centroid.
pub open spec fn square<D: Distance>(dist: D, v: Seq<u32>, centroids: Seq<Seq<u32>>, c: int) -> u32 {
    dist.square_l2_spec(v, centroids[c])
}

proof fn lemma_nearest_first<D: Distance>(
    dist: D,
    v: Seq<u32>,
    centroids: Seq<Seq<u32>>,
    upto: int,
)
    requires
        0 < upto <= centroids.len(),
        forall|d: int|
            0 <= d < centroids.len() ==> word::less(
                #[trigger] square(dist, v, centroids, d),
                0x7f7f_ffff,
            ),
    ensures
        ({
            let (c, w) = kmeans::nearest_centroid(dist, v, centroids, upto);
            &&& 0 <= c < upto
            &&& w == square(dist, v, centroids, c)
            &&& forall|d: int|
                0 <= d < c ==> word::less(w, #[trigger] square(dist, v, centroids, d))
            &&& forall|d: int|
                c < d < upto ==> word::at_most(w, #[trigger] square(dist, v, centroids, d))
        }),
    decreases upto,
{
    if upto > 1 {
        lemma_nearest_first(dist, v, centroids, upto - 1);
    } else {
        assert(kmeans::nearest_centroid(dist, v, centroids, 0) == (0int, kmeans::FARTHEST));
    }
    assert(word::less(square(dist, v, centroids, upto - 1), 0x7f7f_ffff));
}

/// A vector falls to the cluster whose centroid is nearest to it, by the squared distance;
/// of several to the first.
pub proof fn vectors_fall_to_the_nearest<D: Distance>(
    dist: D,
    vectors: Seq<Seq<u32>>,
    centroids: Seq<Seq<u32>>,
    i: int,
    d: int,
)
    requires
        0 <= d < centroids.len(),
        forall|d: int|
            0 <= d < centroids.len() ==> word::less(
                #[trigger] square(dist, vectors[i], centroids, d),
                0x7f7f_ffff,
            ),
    ensures
        ({
            let c = kmeans::cluster_of(dist, vectors, centroids, i);
            let own = square(dist, vectors[i], centroids, c);
            let other = square(dist, vectors[i], centroids, d);
            &&& 0 <= c < centroids.len()
            &&& d < c ==> word::order(own) < word::order(other)
            &&& c < d ==> word::order(own) <= word::order(other)
        }),
{
    lemma_nearest_first(dist, vectors[i], centroids, centroids.len() as int);
    let own = square(dist, vectors[i], centroids, kmeans::cluster_of(dist, vectors, centroids, i));
    let other = square(dist, vectors[i], centroids, d);
}

/// Those of the first `upto` vectors that are chosen, in turn.
pub open spec fn chosen_of(vectors: Seq<Seq<u32>>, chosen: spec_fn(int) -> bool, upto: int) -> Seq<
    Seq<u32>,
>
    decreases upto,
{
    if upto <= 0 {
        Seq::empty()
    } else if chosen(upto - 1) {
        chosen_of(vectors, chosen, upto - 1).push(vectors[upto - 1])
    } else {
        chosen_of(vectors, chosen, upto - 1)
    }
}

/// Those that fall to a cluster.
pub open spec fn falls_to<D: Distance>(
    dist: D,
    vectors: Seq<Seq<u32>>,
    centroids: Seq<Seq<u32>>,
    c: int,
) -> spec_fn(int) -> bool {
    |i: int| kmeans::cluster_of(dist, vectors, centroids, i) == c
}

proof fn lemma_members<D: Distance>(
    dist: D,
    vectors: Seq<Seq<u32>>,
    centroids: Seq<Seq<u32>>,
    c: int,
    upto: int,
)
    ensures
        kmeans::members(dist, vectors, centroids, c, upto) == chosen_of(
            vectors,
            falls_to(dist, vectors, centroids, c),
            upto,
        ),
    decreases upto,
{
    if upto > 0 {
        lemma_members(dist, vectors, centroids, c, upto - 1);
    }
}

/// One step of clustering: each centroid becomes the mean of the vectors that fall to it,
/// or some vector where none does.
pub open spec fn is_step<D: Distance>(
    dist: D,
    vectors: Seq<Seq<u32>>,
    before: Seq<Seq<u32>>,
    after: Seq<Seq<u32>>,
    c: int,
) -> bool {
    let own = chosen_of(
        vectors,
        falls_to(dist, vectors, before, c),
        vectors.len() as int,
    );
    if own.len() > 0 {
        after[c] == metric::mean_of(dist, own)
    } else {
        vectors.contains(after[c])
    }
}

/// Clustering starts with as many of the vectors as there are to be clusters, and takes as
/// many steps as are asked for.
pub proof fn clustering_takes_the_steps<D: Distance>(
    dist: D,
    vectors: Seq<Seq<u32>>,
    k: int,
    iterations: int,
    centroids: Seq<Seq<u32>>,
)
    requires
        0 <= iterations,
        0 <= k,
        kmeans::clusters(dist, vectors, k, iterations, centroids),
    ensures
        centroids.len() == k,
        exists|steps: Seq<Seq<Seq<u32>>>|
            #![trigger steps.last()]
            steps.len() == iterations + 1 && steps.last() == centroids && (forall|c: int|
                0 <= c < k ==> vectors.contains(#[trigger] steps[0][c])) && (forall|i: int, c: int|
                0 <= i < iterations && 0 <= c < k ==> #[trigger] is_step(
                    dist,
                    vectors,
                    steps[i],
                    steps[i + 1],
                    c,
                )),
{
    let steps = choose|steps: Seq<Seq<Seq<u32>>>| #[trigger]
        kmeans::clustered(dist, vectors, k, iterations, steps, centroids);
    lemma_steps_len(dist, vectors, k, steps, iterations);
    assert forall|i: int, c: int| 0 <= i < iterations && 0 <= c < k implies #[trigger] is_step(
        dist,
        vectors,
        steps[i],
        steps[i + 1],
        c,
    ) by {
        let j = i + 1;
        assert(kmeans::improved(dist, vectors, steps[j - 1], steps[j]));
        lemma_steps_len(dist, vectors, k, steps, j);
        lemma_members(dist, vectors, steps[i], c, vectors.len() as int);
        let _ = steps[j][c];
    }
    assert(steps.last() == centroids);
}

proof fn lemma_steps_len<D: Distance>(
    dist: D,
    vectors: Seq<Seq<u32>>,
    k: int,
    steps: Seq<Seq<Seq<u32>>>,
    i: int,
)
    requires
        0 <= i < steps.len(),
        steps[0].len() == k,
        forall|i: int|
            0 < i < steps.len() ==> kmeans::improved(
                dist,
                vectors,
                steps[i - 1],
                #[trigger] steps[i],
            ),
    ensures
        steps[i].len() == k,
    decreases i,
{
    if i > 0 {
        lemma_steps_len(dist, vectors, k, steps, i - 1);
        assert(kmeans::improved(dist, vectors, steps[i - 1], steps[i]));
    }
}

/// The weight of a vector when centroid `c` is drawn is its least squared distance from the
/// centroids before, so that one that is a centroid already weighs nothing.
pub proof fn weights_are_least_distances<D: Distance>(
    dist: D,
    v: Seq<u32>,
    centroids: Seq<Seq<u32>>,
    c: int,
    d: int,
)
    requires
        0 <= d < c <= centroids.len(),
        forall|d: int|
            0 <= d < centroids.len() ==> word::less(
                #[trigger] square(dist, v, centroids, d),
                0x7f7f_ffff,
            ),
    ensures
        word::order(kmeans::gap(dist, v, centroids, c)) <= word::order(
            square(dist, v, centroids, d),
        ),
        exists|e: int|
            0 <= e < c && kmeans::gap(dist, v, centroids, c) == #[trigger] square(
                dist,
                v,
                centroids,
                e,
            ),
    decreases c,
{
    assert(word::less(square(dist, v, centroids, c - 1), 0x7f7f_ffff));
    if c > 1 {
        let k = if d < c - 1 {
            d
        } else {
            0
        };
        weights_are_least_distances(dist, v, centroids, c - 1, k);
        let e = choose|e: int|
            0 <= e < c - 1 && kmeans::gap(dist, v, centroids, c - 1) == #[trigger] square(
                dist,
                v,
                centroids,
                e,
            );
        assert(square(dist, v, centroids, e) == kmeans::gap(dist, v, centroids, c - 1));
        assert(word::less(square(dist, v, centroids, e), 0x7f7f_ffff));
        assert(kmeans::gap(dist, v, centroids, c) == square(dist, v, centroids, e)
            || kmeans::gap(dist, v, centroids, c) == square(dist, v, centroids, c - 1));
    } else {
        assert(kmeans::gap(dist, v, centroids, 0) == kmeans::FARTHEST);
        assert(kmeans::gap(dist, v, centroids, 1) == square(dist, v, centroids, 0));
    }
}

proof fn lemma_range(vectors: Seq<Vec<u32>>, d: int, upto: int, i: int)
    requires
        0 <= i < upto <= vectors.len(),
        forall|i: int|
            0 <= i < vectors.len() ==> word::magnitude((#[trigger] vectors[i])@[d]) < 0x7f80_0000,
    ensures
        ({
            let lo = sq::lowest_at(vectors, d, upto);
            let hi = sq::highest_at(vectors, d, upto);
            &&& !word::is_nan(lo) && !word::is_nan(hi)
            &&& word::order(lo) <= word::order(vectors[i]@[d]) <= word::order(hi)
            &&& exists|j: int| 0 <= j < upto && lo == (#[trigger] vectors[j])@[d]
            &&& exists|j: int| 0 <= j < upto && hi == (#[trigger] vectors[j])@[d]
        }),
    decreases upto,
{
    let x = vectors[upto - 1]@[d];
    assert(word::magnitude(vectors[upto - 1]@[d]) < 0x7f80_0000);
    if upto > 1 {
        let k = if i < upto - 1 {
            i
        } else {
            0
        };
        lemma_range(vectors, d, upto - 1, k);
        let a = choose|j: int|
            0 <= j < upto - 1 && sq::lowest_at(vectors, d, upto - 1) == (#[trigger] vectors[j])@[d];
        let b = choose|j: int|
            0 <= j < upto - 1 && sq::highest_at(vectors, d, upto - 1) == (#[trigger] vectors[j])@[d];
        assert(sq::lowest_at(vectors, d, upto) == vectors[a]@[d] || sq::lowest_at(
            vectors,
            d,
            upto,
        ) == vectors[upto - 1]@[d]);
        assert(sq::highest_at(vectors, d, upto) == vectors[b]@[d] || sq::highest_at(
            vectors,
            d,
            upto,
        ) == vectors[upto - 1]@[d]);
    } else {
        assert(sq::lowest_at(vectors, d, 0) == rabitq::LARGEST);
        assert(sq::highest_at(vectors, d, 0) == rabitq::SMALLEST);
        let lo = sq::lowest_at(vectors, d, 1);
        let hi = sq::highest_at(vectors, d, 1);
        assert(word::order(lo) == word::order(x));
        assert(word::order(hi) == word::order(x));
        assert(lo == vectors[0]@[d]);
        assert(hi == vectors[0]@[d]);
    }
}

/// A byte quantizer spans, in each place, just the range of the vectors it was trained on:
/// byte 0 stands for the least component there, and 255 steps lead to the greatest. Where
/// there is next to no range, a step is 1.0.
pub proof fn bytes_span_the_range<D: Distance>(
    q: &Int8Quantizer,
    dist: D,
    vectors: Seq<Vec<u32>>,
    d: int,
    i: int,
)
    requires
        q.is_trained(dist, vectors),
        0 <= d < q.dim,
        0 <= i < vectors.len(),
        forall|i: int|
            0 <= i < vectors.len() ==> word::magnitude((#[trigger] vectors[i])@[d]) < 0x7f80_0000,
    ensures
        word::order(q.offset@[d]) <= word::order(vectors[i]@[d]),
        exists|j: int, m: int|
            #![trigger vectors[j], vectors[m]]
            0 <= j < vectors.len() && 0 <= m < vectors.len() && q.offset@[d] == vectors[j]@[d]
                && word::order(vectors[i]@[d]) <= word::order(vectors[m]@[d]) && q.scale@[d] == ({
                let range = dist.difference_spec(vectors[m]@[d], vectors[j]@[d]);
                if word::less(word::abs_of(range), 0x3400_0000) {
                    0x3f80_0000
                } else {
                    dist.quotient_spec(range, dist.count_spec(255))
                }
            }),
{
    let n = vectors.len() as int;
    lemma_range(vectors, d, n, i);
    let j = choose|j: int|
        0 <= j < n && sq::lowest_at(vectors, d, n) == (#[trigger] vectors[j])@[d];
    let m = choose|m: int|
        0 <= m < n && sq::highest_at(vectors, d, n) == (#[trigger] vectors[m])@[d];
    assert(q.offset@[d] == vectors[j]@[d]);
    assert(q.scale@[d] == Int8Quantizer::scale_for(
        dist,
        dist.difference_spec(vectors[m]@[d], vectors[j]@[d]),
    ));
}

proof fn lemma_padded(p: int, dim: int)
    requires
        0 < p,
        rotation::is_pow2(p),
    ensures
        rotation::is_pow2(rabitq::padded_from(p, dim)),
        p <= rabitq::padded_from(p, dim),
        dim <= rabitq::padded_from(p, dim),
        rabitq::padded_from(p, dim) == p || rabitq::padded_from(p, dim) < 2 * dim,
    decreases
            if p < dim {
                dim - p
            } else {
                0
            },
{
    if p < dim {
        assert((2 * p) / 2 == p && (2 * p) % 2 == 0);
        lemma_padded(2 * p, dim);
    }
}

/// Vectors are padded to the least power of two that is at least 64 and their length.
pub proof fn padding_is_least(dim: int)
    ensures
        rotation::is_pow2(rabitq::padded_for(dim)),
        64 <= rabitq::padded_for(dim),
        dim <= rabitq::padded_for(dim),
        rabitq::padded_for(dim) == 64 || rabitq::padded_for(dim) < 2 * dim,
{
    assert(rotation::is_pow2(64)) by {
        reveal_with_fuel(rotation::is_pow2, 8);
    }
    lemma_padded(64, dim);
}

proof fn lemma_sign_words(r: Seq<u32>, upto: int, q: int)
    requires
        0 <= q < upto,
    ensures
        rabitq::sign_bytes(r, upto).len() == 8 * upto,
        rabitq::sign_bytes(r, upto).subrange(8 * q, 8 * q + 8) == bytes::le64(
            rabitq::sign_word(r, q),
        ),
    decreases upto,
{
    rabitq::lemma_sign_bytes_len(r, upto);
    rabitq::lemma_sign_bytes_len(r, upto - 1);
    let all = rabitq::sign_bytes(r, upto);
    let before = rabitq::sign_bytes(r, upto - 1);
    if q < upto - 1 {
        lemma_sign_words(r, upto - 1, q);
        assert(all.subrange(8 * q, 8 * q + 8) =~= before.subrange(8 * q, 8 * q + 8));
    } else {
        bytes::lemma_le64(rabitq::sign_word(r, q));
        assert(all.subrange(8 * q, 8 * q + 8) =~= bytes::le64(rabitq::sign_word(r, q)));
    }
}

/// The squares of the first `upto` entries, added in turn to zero.
pub open spec fn squares<D: Distance>(dist: D, v: Seq<u32>, upto: nat) -> u32
    decreases upto,
{
    if upto == 0 {
        0
    } else {
        let x = v[upto - 1];
        dist.sum_spec(squares(dist, v, (upto - 1) as nat), dist.product_spec(x, x))
    }
}

/// The first `upto` entries without their signs, added in turn to zero.
pub open spec fn sizes<D: Distance>(dist: D, v: Seq<u32>, upto: nat) -> u32
    decreases upto,
{
    if upto == 0 {
        0
    } else {
        let x = v[upto - 1];
        let size = if x < 0x8000_0000 {
            x
        } else {
            (x - 0x8000_0000) as u32
        };
        dist.sum_spec(sizes(dist, v, (upto - 1) as nat), size)
    }
}

proof fn lemma_sums<D: Distance>(dist: D, v: Seq<u32>, upto: nat)
    ensures
        rabitq::square_sum(dist, v, upto as int) == squares(dist, v, upto),
        rabitq::magnitude_sum(dist, v, upto as int) == sizes(dist, v, upto),
    decreases upto,
{
    if upto > 0 {
        lemma_sums(dist, v, (upto - 1) as nat);
    }
}

/// A vector as seen from a centroid, with zeros behind it.
pub open spec fn seen_from<D: Distance>(dist: D, v: Seq<u32>, centroid: Seq<u32>, n: nat) -> Seq<u32> {
    Seq::new(
        n,
        |i: int|
            if i < v.len() {
                dist.difference_spec(v[i], centroid[i])
            } else {
                0
            },
    )
}

/// The direction of a vector: its entries over its length, if it has one.
pub open spec fn direction<D: Distance>(dist: D, v: Seq<u32>, length: u32) -> Seq<u32> {
    Seq::new(
        v.len(),
        |i: int|
            if word::less(0, length) {
                dist.quotient_spec(v[i], length)
            } else {
                v[i]
            },
    )
}

/// Three rounds of signs and transform turn a vector; taking them back goes through the
/// rounds the other way round, each transformed first.
pub proof fn three_rounds_turn<D: Distance>(dist: D, v: Seq<u32>, signs: Seq<u32>)
    ensures
        ({
            let n = v.len() as int;
            let row = |r: int| signs.subrange(r * n, r * n + n);
            let one = rotation::transformed(dist, times(dist, v, row(0)));
            let two = rotation::transformed(dist, times(dist, one, row(1)));
            rotation::rotated(dist, v, signs, 3) == rotation::transformed(
                dist,
                times(dist, two, row(2)),
            )
        }),
        ({
            let n = v.len() as int;
            let row = |r: int| signs.subrange(r * n, r * n + n);
            let one = times(dist, rotation::transformed(dist, v), row(2));
            let two = times(dist, rotation::transformed(dist, one), row(1));
            rotation::unrotated(dist, v, signs, 0, 3) == times(
                dist,
                rotation::transformed(dist, two),
                row(0),
            )
        }),
{
    reveal_with_fuel(rotation::rotated, 4);
    reveal_with_fuel(rotation::unrotated, 4);
    assert forall|u: Seq<u32>| (#[trigger] rotation::transformed(dist, u)).len() == u.len() by {
        rotation::lemma_stages_len(dist, u, 1);
    }
    let n = v.len() as int;
    let row = |r: int| signs.subrange(r * n, r * n + n);
    assert forall|u: Seq<u32>, r: int| #[trigger]
        rotation::signed(dist, u, rotation::sign_row(signs, r, n)) == times(
            dist,
            u,
            signs.subrange(r * n, r * n + n),
        ) by {
        assert(rotation::signed(dist, u, rotation::sign_row(signs, r, n)) =~= times(
            dist,
            u,
            signs.subrange(r * n, r * n + n),
        ));
    }
    let one = rotation::transformed(dist, times(dist, v, row(0)));
    let two = rotation::transformed(dist, times(dist, one, row(1)));
    assert(rotation::rotated(dist, v, signs, 1) == one);
    assert(rotation::rotated(dist, v, signs, 2) == two);
    let a = times(dist, rotation::transformed(dist, v), row(2));
    let b = times(dist, rotation::transformed(dist, a), row(1));
    assert(rotation::unrotated(dist, v, signs, 3, 3) == v);
    assert(rotation::unrotated(dist, v, signs, 2, 3) == a);
    assert(rotation::unrotated(dist, v, signs, 1, 3) == b);
}

/// Each entry of a vector times that of another.
pub open spec fn times<D: Distance>(dist: D, v: Seq<u32>, w: Seq<u32>) -> Seq<u32> {
    Seq::new(v.len(), |i: int| dist.product_spec(v[i], w[i]))
}

/// The transform of two entries is their sum and their difference; that of four is made of
/// the sums and differences of pairs of neighbours.
pub proof fn small_transforms<D: Distance>(dist: D, v: Seq<u32>)
    ensures
        v.len() == 1 ==> rotation::transformed(dist, v) == v,
        v.len() == 2 ==> rotation::transformed(dist, v) == seq![
            dist.sum_spec(v[0], v[1]),
            dist.difference_spec(v[0], v[1]),
        ],
        v.len() == 4 ==> rotation::transformed(dist, v) == seq![
            dist.sum_spec(dist.sum_spec(v[0], v[1]), dist.sum_spec(v[2], v[3])),
            dist.sum_spec(dist.difference_spec(v[0], v[1]), dist.difference_spec(v[2], v[3])),
            dist.difference_spec(dist.sum_spec(v[0], v[1]), dist.sum_spec(v[2], v[3])),
            dist.difference_spec(
                dist.difference_spec(v[0], v[1]),
                dist.difference_spec(v[2], v[3]),
            ),
        ],
{
    reveal_with_fuel(rotation::stages, 4);
    if v.len() == 2 {
        assert(rotation::transformed(dist, v) =~= seq![
            dist.sum_spec(v[0], v[1]),
            dist.difference_spec(v[0], v[1]),
        ]);
    }
    if v.len() == 4 {
        let s = rotation::stage(dist, v, 1);
        assert(s[0] == dist.sum_spec(v[0], v[1]));
        assert(s[1] == dist.difference_spec(v[0], v[1]));
        assert(s[2] == dist.sum_spec(v[2], v[3]));
        assert(s[3] == dist.difference_spec(v[2], v[3]));
        let t = rotation::stage(dist, s, 2);
        assert(rotation::transformed(dist, v) == t);
        assert(t =~= seq![
            dist.sum_spec(s[0], s[2]),
            dist.sum_spec(s[1], s[3]),
            dist.difference_spec(s[0], s[2]),
            dist.difference_spec(s[1], s[3]),
        ]);
    }
}

/// Stage `h` of the transform takes entries `h` apart to their sum and their difference.
pub proof fn stages_pair_entries<D: Distance>(dist: D, v: Seq<u32>, h: int, p: int)
    requires
        0 < h,
        0 <= p,
        p + h < v.len(),
        p % (2 * h) < h,
    ensures
        rotation::stage(dist, v, h).len() == v.len(),
        rotation::stage(dist, v, h)[p] == dist.sum_spec(v[p], v[p + h]),
        rotation::stage(dist, v, h)[p + h] == dist.difference_spec(v[p], v[p + h]),
{
    let q = p / (2 * h);
    let m = p % (2 * h);
    vstd::arithmetic::div_mod::lemma_fundamental_div_mod(p, 2 * h);
    vstd::arithmetic::div_mod::lemma_fundamental_div_mod_converse(p + h, 2 * h, q, m + h);
}

/// A code of bits about a centroid: bit `i` tells whether entry `i` of the turned direction
/// is above zero. Behind the bits stand the squared distance from the centroid, and that
/// distance over the share of the direction that the bits keep.
pub proof fn bit_codes_keep_directions<D: Distance>(
    q: &RaBitQ,
    dist: D,
    v: Seq<u32>,
    centroid: Seq<u32>,
    i: int,
)
    requires
        q.wf(),
        0 <= i < q.padded,
    ensures
        ({
            let n = q.padded as nat;
            let c = seen_from(dist, v, centroid, n);
            let norm = dist.root_spec(squares(dist, c, n));
            let r = rotation::rotated(dist, direction(dist, c, norm), q.signs@, 3);
            let share = dist.quotient_spec(
                sizes(dist, r, n),
                dist.root_spec(dist.count_spec(q.padded)),
            );
            let code = q.code_of(dist, v, centroid);
            let at = n as int / 8;
            &&& code.len() == at + 8
            &&& bits::bit(
                bytes::le_value(code.subrange(8 * (i / 64), 8 * (i / 64) + 8)) as u64,
                (i % 64) as u64,
            ) <==> word::less(0, r[i])
            &&& bytes::word_at(code, at) == dist.product_spec(norm, norm)
            &&& bytes::word_at(code, at + 4) == if word::less(0, share) {
                dist.quotient_spec(norm, share)
            } else {
                0
            }
        }),
{
    let n = q.padded as nat;
    let c = seen_from(dist, v, centroid, n);
    assert(rabitq::centred(dist, v, centroid, n as int) =~= c);
    lemma_sums(dist, c, n);
    let norm = dist.root_spec(squares(dist, c, n));
    let d = direction(dist, c, norm);
    assert(rabitq::normed(dist, c, norm) =~= d);
    let r = rotation::rotated(dist, d, q.signs@, 3);
    rotation::lemma_rotated_len(dist, d, q.signs@, 3);
    lemma_sums(dist, r, n);
    q.lemma_words();
    let words = n as int / 64;
    let code = q.code_of(dist, v, centroid);
    let bits_part = rabitq::sign_bytes(r, words);
    rabitq::lemma_sign_bytes_len(r, words);
    lemma_sign_words(r, words, i / 64);
    let n2 = dist.product_spec(norm, norm);
    let share = dist.quotient_spec(
        sizes(dist, r, n),
        dist.root_spec(dist.count_spec(q.padded)),
    );
    let fac = if word::less(word::ZERO, share) {
        dist.quotient_spec(norm, share)
    } else {
        word::ZERO
    };
    assert(code == bits_part + bytes::le32(n2) + bytes::le32(fac));
    bytes::lemma_le32(n2);
    bytes::lemma_le32(fac);
    let at = n as int / 8;
    assert(at == 8 * words);
    assert(code.subrange(at, at + 4) =~= bytes::le32(n2));
    assert(code.subrange(at + 4, at + 4 + 4) =~= bytes::le32(fac));
    let w = i / 64;
    assert(code.subrange(8 * w, 8 * w + 8) =~= bits_part.subrange(8 * w, 8 * w + 8));
    bytes::lemma_le64(rabitq::sign_word(r, w));
    rabitq::signs_are_kept(r, w, (i % 64) as u64);
    assert(64 * w + i % 64 == i);
}

/// What a code of bits about a centroid decodes to: the centroid, and from it as far as the
/// code says in the direction that its bits turn back to, each bit counting as one over the
/// root of their number, above zero or below.
pub proof fn bit_codes_decode_about_centroids<D: Distance>(
    q: &RaBitQ,
    dist: D,
    code: Seq<u8>,
    centroid: Seq<u32>,
    i: int,
)
    requires
        0 <= i < q.dim,
    ensures
        ({
            let n = q.padded as nat;
            let root = dist.root_spec(dist.count_spec(q.padded));
            let signs = Seq::new(
                n,
                |p: int|
                    if bits::bit(
                        bytes::le_value(code.subrange(8 * (p / 64), 8 * (p / 64) + 8)) as u64,
                        (p % 64) as u64,
                    ) {
                        dist.quotient_spec(0x3f80_0000, root)
                    } else {
                        dist.quotient_spec(0xbf80_0000, root)
                    },
            );
            let back = rotation::unrotated(dist, signs, q.signs@, 0, 3);
            let norm = dist.root_spec(bytes::word_at(code, n as int / 8));
            &&& q.decoded(dist, code, centroid).len() == q.dim
            &&& q.decoded(dist, code, centroid)[i] == dist.sum_spec(
                centroid[i],
                dist.product_spec(norm, back[i]),
            )
        }),
{
    let n = q.padded as nat;
    let root = dist.root_spec(dist.count_spec(q.padded));
    let signs = Seq::new(
        n,
        |p: int|
            if bits::bit(
                bytes::le_value(code.subrange(8 * (p / 64), 8 * (p / 64) + 8)) as u64,
                (p % 64) as u64,
            ) {
                dist.quotient_spec(0x3f80_0000, root)
            } else {
                dist.quotient_spec(0xbf80_0000, root)
            },
    );
    assert(word::negated(word::ONE) == 0xbf80_0000);
    assert(rabitq::unpacked(dist, code, q.padded) =~= signs);
}

/// A number that is not below zero, and zero in place of one that is.
pub open spec fn not_below_zero(x: u32) -> u32 {
    if word::is_nan(x) || word::less(x, 0) {
        0
    } else {
        x
    }
}

/// The estimate for a query and a code of bits is that of the law of cosines: the squares
/// of both distances from the centroid, less twice their product times the cosine, which is
/// taken from the levels of the query's entries whose bits are set.
#[verifier::rlimit(40)]
pub proof fn estimates_follow_the_law_of_cosines<D: Distance>(
    q: &RaBitQ,
    dist: D,
    query: Seq<u32>,
    centroid: Seq<u32>,
    p: &RaBitQQuery,
    code: Seq<u8>,
)
    requires
        q.wf(),
        q.is_query(dist, query, centroid, p),
    ensures
        ({
            let n = q.padded as nat;
            let at = 8 * (n as int / 64);
            let c = seen_from(dist, query, centroid, n);
            let nq = dist.root_spec(squares(dist, c, n));
            let r = rotation::rotated(dist, direction(dist, c, nq), q.signs@, 3);
            let lo = rabitq::low_of(r, n as int);
            let delta = dist.quotient_spec(
                dist.difference_spec(rabitq::high_of(r, n as int), lo),
                dist.count_spec(15),
            );
            let levels = rabitq::levels_of(dist, r);
            let root = dist.root_spec(dist.count_spec(q.padded));
            let set = rabitq::picked_levels(code.take(at), levels, n as int / 64);
            let ones = rabitq::bit_products(
                code.take(at),
                p.planes@,
                n as int / 64,
                n as int / 64,
            ).1;
            let cosine = dist.sum_spec(
                dist.sum_spec(
                    dist.product_spec(
                        dist.quotient_spec(dist.product_spec(0x4000_0000, delta), root),
                        dist.count_spec(set as usize),
                    ),
                    dist.product_spec(
                        dist.quotient_spec(dist.product_spec(0x4000_0000, lo), root),
                        dist.count_spec(ones as usize),
                    ),
                ),
                dist.quotient_spec(
                    word::negated(
                        dist.sum_spec(
                            dist.product_spec(
                                delta,
                                dist.count_spec(rabitq::level_sum(levels, n as int) as usize),
                            ),
                            dist.product_spec(dist.count_spec(q.padded), lo),
                        ),
                    ),
                    root,
                ),
            );
            let n2 = bytes::word_at(code, at);
            let fac = bytes::word_at(code, at + 4);
            rabitq::estimate(dist, p, code) == not_below_zero(
                dist.difference_spec(
                    dist.sum_spec(n2, dist.product_spec(nq, nq)),
                    dist.product_spec(
                        dist.product_spec(dist.product_spec(0x4000_0000, nq), fac),
                        cosine,
                    ),
                ),
            )
        }),
{
    let n = q.padded as nat;
    let at = 8 * (n as int / 64);
    let c = seen_from(dist, query, centroid, n);
    assert(rabitq::centred(dist, query, centroid, n as int) =~= c);
    lemma_sums(dist, c, n);
    let nq = dist.root_spec(squares(dist, c, n));
    let d = direction(dist, c, nq);
    assert(rabitq::normed(dist, c, nq) =~= d);
    let r = rotation::rotated(dist, d, q.signs@, 3);
    rotation::lemma_rotated_len(dist, d, q.signs@, 3);
    q.lemma_words();
    let levels = rabitq::levels_of(dist, r);
    assert(levels.len() == n);
    assert forall|i: int| 0 <= i < levels.len() implies #[trigger] levels[i] <= 15 by {}
    rabitq::planes_add_up(code.take(at), levels, n as int / 64, n as int / 64);
    assert(p.words == n as int / 64);
}

/// The error radius of an estimate: 1.9 times the slope of the estimate in the cosine, times
/// the spread of the part of the direction that the bits lose, over all places but one.
/// Without a share that the bits keep there is no bound.
pub proof fn error_radius_grows_with_what_is_lost<D: Distance>(
    q: &RaBitQ,
    dist: D,
    query: Seq<u32>,
    centroid: Seq<u32>,
    p: &RaBitQQuery,
    code: Seq<u8>,
)
    requires
        q.wf(),
        q.is_query(dist, query, centroid, p),
    ensures
        ({
            let n = q.padded as nat;
            let at = 8 * (n as int / 64);
            let c = seen_from(dist, query, centroid, n);
            let nq = dist.root_spec(squares(dist, c, n));
            let fac = bytes::word_at(code, at + 4);
            let share = dist.quotient_spec(dist.root_spec(bytes::word_at(code, at)), fac);
            let lost = not_below_zero(
                dist.difference_spec(0x3f80_0000, dist.product_spec(share, share)),
            );
            rabitq::error_radius(dist, q.padded, p, code) == if word::less(0, fac) && word::less(
                0,
                share,
            ) {
                dist.product_spec(
                    dist.product_spec(
                        dist.product_spec(dist.product_spec(0x4000_0000, nq), fac),
                        0x3ff3_3333,
                    ),
                    dist.root_spec(
                        dist.quotient_spec(
                            lost,
                            dist.difference_spec(dist.count_spec(q.padded), 0x3f80_0000),
                        ),
                    ),
                )
            } else {
                0x7f80_0000
            }
        }),
{
    let n = q.padded as nat;
    let c = seen_from(dist, query, centroid, n);
    assert(rabitq::centred(dist, query, centroid, n as int) =~= c);
    lemma_sums(dist, c, n);
}

proof fn lemma_extremes(r: Seq<u32>, upto: int, i: int)
    requires
        0 <= i < upto <= r.len(),
        forall|j: int| 0 <= j < r.len() ==> word::magnitude(#[trigger] r[j]) < 0x7f80_0000,
    ensures
        word::order(rabitq::low_of(r, upto)) <= word::order(r[i]) <= word::order(
            rabitq::high_of(r, upto),
        ),
        exists|j: int| 0 <= j < upto && #[trigger] r[j] == rabitq::low_of(r, upto),
        exists|j: int| 0 <= j < upto && #[trigger] r[j] == rabitq::high_of(r, upto),
    decreases upto,
{
    reveal_with_fuel(rabitq::low_of, 2);
    reveal_with_fuel(rabitq::high_of, 2);
    assert(word::magnitude(r[upto - 1]) < 0x7f80_0000);
    if upto > 1 {
        lemma_extremes(
            r,
            upto - 1,
            if i < upto - 1 {
                i
            } else {
                0
            },
        );
        let j = choose|j: int| 0 <= j < upto - 1 && #[trigger] r[j] == rabitq::low_of(r, upto - 1);
        let m = choose|m: int| 0 <= m < upto - 1 && #[trigger] r[m] == rabitq::high_of(
            r,
            upto - 1,
        );
        assert(word::magnitude(r[j]) < 0x7f80_0000);
        assert(word::magnitude(r[m]) < 0x7f80_0000);
        if word::less(r[upto - 1], rabitq::low_of(r, upto - 1)) {
            assert(r[upto - 1] == rabitq::low_of(r, upto));
        } else {
            assert(r[j] == rabitq::low_of(r, upto));
        }
        if word::less(rabitq::high_of(r, upto - 1), r[upto - 1]) {
            assert(r[upto - 1] == rabitq::high_of(r, upto));
        } else {
            assert(r[m] == rabitq::high_of(r, upto));
        }
    } else {
        assert(r[0] == r[upto - 1]);
        assert(rabitq::low_of(r, upto) == r[0] || (word::order(r[0]) == word::order(
            0x7f7f_ffff,
        )));
        assert(r[0] == rabitq::low_of(r, upto));
        assert(r[0] == rabitq::high_of(r, upto));
    }
}

/// A query's entries are rounded to levels from 0 to 15, which stand evenly between the
/// least entry and the greatest.
pub proof fn levels_span_the_entries<D: Distance>(dist: D, r: Seq<u32>, i: int)
    requires
        0 <= i < r.len(),
        forall|j: int| 0 <= j < r.len() ==> word::magnitude(#[trigger] r[j]) < 0x7f80_0000,
    ensures
        rabitq::levels_of(dist, r).len() == r.len(),
        rabitq::levels_of(dist, r)[i] <= 15,
        exists|j: int, m: int|
            #![trigger r[j], r[m]]
            0 <= j < r.len() && 0 <= m < r.len() && word::order(r[j]) <= word::order(r[i])
                <= word::order(r[m]) && ({
                let width = dist.quotient_spec(
                    dist.difference_spec(r[m], r[j]),
                    dist.count_spec(15),
                );
                let level = dist.rounded_spec(
                    dist.product_spec(
                        dist.difference_spec(r[i], r[j]),
                        if word::less(0, width) {
                            dist.quotient_spec(0x3f80_0000, width)
                        } else {
                            0
                        },
                    ),
                );
                rabitq::levels_of(dist, r)[i] == if level < 15 {
                    level
                } else {
                    15
                }
            }),
{
    let n = r.len() as int;
    lemma_extremes(r, n, i);
    let j = choose|j: int| 0 <= j < n && #[trigger] r[j] == rabitq::low_of(r, n);
    let m = choose|m: int| 0 <= m < n && #[trigger] r[m] == rabitq::high_of(r, n);
    assert(word::order(r[j]) <= word::order(r[i]) <= word::order(r[m]));
}

/// The sum of what stands at the places below `upto` whose bits are set in a code.
pub open spec fn at_set_bits(code: Seq<u8>, what: spec_fn(int) -> int, upto: nat) -> int
    decreases upto,
{
    if upto == 0 {
        0
    } else {
        let i = upto - 1;
        at_set_bits(code, what, (upto - 1) as nat) + if bits::bit(
            bytes::le_value(code.subrange(8 * (i / 64), 8 * (i / 64) + 8)) as u64,
            (i % 64) as u64,
        ) {
            what(i)
        } else {
            0
        }
    }
}

proof fn lemma_set_in_word(code: Seq<u8>, levels: Seq<u32>, q: nat, upto: nat)
    requires
        upto <= 64,
    ensures
        at_set_bits(code, |i: int| 1int, 64 * q + upto) == at_set_bits(code, |i: int| 1int, 64 * q)
            + bits::ones(rabitq::code_word(code, q as int), upto as int),
        at_set_bits(code, |i: int| levels[i] as int, 64 * q + upto) == at_set_bits(
            code,
            |i: int| levels[i] as int,
            64 * q,
        ) + rabitq::picked_in_word(
            rabitq::code_word(code, q as int),
            levels,
            q as int,
            upto as int,
        ),
    decreases upto,
{
    if upto > 0 {
        lemma_set_in_word(code, levels, q, (upto - 1) as nat);
        let i = 64 * q + upto - 1;
        assert(i / 64 == q);
        assert(i % 64 == upto - 1);
        assert((64 * q + upto - 1) as nat == 64 * q + (upto - 1) as nat);
    }
}

proof fn lemma_set_bits(code: Seq<u8>, levels: Seq<u32>, planes: Seq<u64>, words: int, upto: nat)
    ensures
        at_set_bits(code, |i: int| 1int, 64 * upto) == rabitq::bit_products(
            code,
            planes,
            words,
            upto as int,
        ).1,
        at_set_bits(code, |i: int| levels[i] as int, 64 * upto) == rabitq::picked_levels(
            code,
            levels,
            upto as int,
        ),
    decreases upto,
{
    if upto > 0 {
        lemma_set_bits(code, levels, planes, words, (upto - 1) as nat);
        lemma_set_in_word(code, levels, (upto - 1) as nat, 64);
        assert(64 * (upto - 1) as nat + 64 == 64 * upto);
    }
}

/// Codes of bits are compared with a query by the levels of the entries whose bits are set,
/// and by how many are set.
pub proof fn set_bits_are_added_up(code: Seq<u8>, levels: Seq<u32>, words: nat)
    requires
        code.len() == 8 * words,
        levels.len() == 64 * words,
        forall|i: int| 0 <= i < levels.len() ==> #[trigger] levels[i] <= 15,
    ensures
        rabitq::bit_products(
            code,
            rabitq::planes_of(levels, words as int),
            words as int,
            words as int,
        ) == (
            at_set_bits(code, |i: int| levels[i] as int, 64 * words),
            at_set_bits(code, |i: int| 1int, 64 * words),
        ),
{
    let planes = rabitq::planes_of(levels, words as int);
    lemma_set_bits(code, levels, planes, words as int, words);
    rabitq::planes_add_up(code, levels, words as int, words as int);
}

/// A trained bit quantizer is centred on the mean of the vectors. Its signs, three for each
/// padded place, go by coin flips from the seed 0x7ab17: one over the root of the number of
/// places, or its negative.
pub proof fn bit_quantizers_are_centred<D: Distance>(
    q: &RaBitQ,
    dist: D,
    vectors: Seq<Vec<u32>>,
    j: int,
    i: int,
)
    requires
        q.is_trained(dist, vectors),
        0 < vectors.len() <= usize::MAX,
        0 <= j < vectors[0]@.len(),
        0 <= i < 3 * q.padded,
    ensures
        q.centroid@.len() == vectors[0]@.len(),
        q.centroid@[j] == dist.quotient_spec(
            total(dist, metric::rows(vectors), j, vectors.len()),
            dist.count_spec(vectors.len() as usize),
        ),
        ({
            let unit = dist.quotient_spec(
                0x3f80_0000,
                dist.root_spec(dist.count_spec(q.padded)),
            );
            q.signs@.len() == 3 * q.padded && q.signs@[i] == if random::coin_flips(
                0x7_ab17,
                (3 * q.padded) as nat,
            )[i] {
                unit
            } else {
                word::negated(unit)
            }
        }),
{
    assert(metric::rows(vectors)[0] == vectors[0]@);
    means_divide_totals(dist, metric::rows(vectors), j);
}

/// The sum of the first `upto` weights, one after the other, from zero on.
pub open spec fn running<D: Distance>(dist: D, weights: Seq<u32>, upto: nat) -> u32
    decreases upto,
{
    if upto == 0 {
        0
    } else {
        dist.sum_spec(running(dist, weights, (upto - 1) as nat), weights[upto - 1])
    }
}

proof fn lemma_running<D: Distance>(dist: D, weights: Seq<u32>, upto: nat)
    ensures
        running(dist, weights, upto) == kmeans::weight_sum(dist, weights, upto as int),
    decreases upto,
{
    if upto > 0 {
        lemma_running(dist, weights, (upto - 1) as nat);
    }
}

/// A centroid to start from is drawn by a threshold on the running sum of the weights: it
/// is the first vector at which the sum is no longer below the threshold, or the last.
pub proof fn centroids_are_drawn_by_weight<D: Distance>(
    dist: D,
    weights: Seq<u32>,
    threshold: u32,
    r: int,
    i: nat,
)
    requires
        kmeans::is_picked(dist, weights, threshold, r),
    ensures
        0 <= r < weights.len(),
        0 < i <= r ==> !word::at_most(threshold, running(dist, weights, i)),
        r + 1 < weights.len() ==> word::at_most(threshold, running(dist, weights, (r + 1) as nat)),
{
    lemma_running(dist, weights, i);
    lemma_running(dist, weights, (r + 1) as nat);
}

} // verus!
