//! What adding vectors to a layer does, in terms of the vectors alone.
use vstd::prelude::*;
use crate::beam;
use crate::beam::{SearchSpace, Trace};
use crate::building;
use crate::candidate;
use crate::candidate::{Candidate, Hit};
use crate::delta;
use crate::delta::{DeltaLayer, PointSpace};
use crate::diverse;
use crate::metric;
use crate::metric::Distance;
use crate::vamana::Table;
use crate::word;

verus! {

/// Every candidate stands at the distance between its vector and `v`.
pub open spec fn are_measured<D: Distance>(
    dist: D,
    vectors: Seq<Vec<u32>>,
    v: Seq<u32>,
    s: Seq<Candidate>,
) -> bool {
    forall|i: int|
        0 <= i < s.len() ==> (#[trigger] s[i]).dist == dist.eval_spec(v, vectors[s[i].id as int]@)
}

proof fn lemma_found<D: Distance>(
    space: &PointSpace<D>,
    start: u32,
    beam_width: int,
    t: Trace,
    r: Seq<Candidate>,
)
    requires
        delta::found_from(space, start, beam_width, t, r),
    ensures
        are_measured(space.dist, space.vectors@, space.query@, r),
{
    candidate::lemma_same_items(r, t.beam);
    assert forall|i: int| 0 <= i < r.len() implies (#[trigger] r[i]).dist == space.dist.eval_spec(
        space.query@,
        space.vectors@[r[i].id as int]@,
    ) by {
        assert(r.contains(r[i]));
        assert(t.beam.contains(r[i]));
        let j = choose|j: int| 0 <= j < t.beam.len() && t.beam[j] == r[i];
        assert(t.beam[j].dist == space.dist_of(t.beam[j].id));
    }
}

/// The neighbours of a new vector come from a search for it with a beam of twice the
/// degree, or 16 where that is more, through the graph without it; they are taken with
/// parameter 1.2. Where there is nowhere to start, they come from all other vectors.
pub proof fn new_vectors_choose_neighbours<D: Distance>(
    pre: &DeltaLayer,
    v: Seq<u32>,
    dist: D,
    mid: &DeltaLayer,
    query: &[u32],
    t: Trace,
    cands: Seq<Candidate>,
    post: &DeltaLayer,
)
    requires
        0 < pre.vectors@.len() < u32::MAX,
        delta::inserted(pre, v, dist, mid, query, t, cands, post),
    ensures
        ({
            let n = pre.vectors@.len() as int;
            let table = Table { vectors: &post.vectors, dist };
            &&& post.vectors@.len() == n + 1
            &&& post.vectors@[n]@ == v
            &&& query@ == v
            &&& mid.graph@.take(n) == pre.graph@
            &&& are_measured(dist, post.vectors@, v, cands)
            &&& match pre.entry_point {
                Some(e) => if e <= n {
                    delta::found_from(
                        &PointSpace { vectors: &post.vectors, graph: &mid.graph, dist, query },
                        e,
                        if pre.max_degree <= 8 {
                            16
                        } else {
                            2 * pre.max_degree
                        },
                        t,
                        cands,
                    )
                } else {
                    cands.len() == 0
                },
                None => forall|id: u32| #[trigger] candidate::holds_id(cands, id) <==> id < n,
            }
            &&& building::is_taken_from(
                &table,
                n as u32,
                cands,
                pre.max_degree as int,
                0x3f99_999a,
                post.graph@[n]@,
            )
        }),
{
    let n = pre.vectors@.len() as int;
    let table = Table { vectors: &mid.vectors, dist };
    assert(mid.neighbors_for(n, dist, query, t, cands, post.graph@[n]@));
    assert(mid.vectors@.len() == n + 1);
    diverse::rows_are_diverse(
        &table,
        n as u32,
        cands,
        mid.max_degree as int,
        delta::DELTA_ALPHA,
        post.graph@[n]@,
    );
    match pre.entry_point {
        Some(e) => {
            if e <= n {
                let space = PointSpace { vectors: &mid.vectors, graph: &mid.graph, dist, query };
                lemma_found(
                    &space,
                    e,
                    if mid.max_degree * 2 >= 16 {
                        mid.max_degree * 2
                    } else {
                        16
                    },
                    t,
                    cands,
                );
            }
        },
        None => {
            assert forall|id: u32| #[trigger] candidate::holds_id(cands, id) <==> id < n by {}
        },
    }
}

/// The neighbours of a new vector come to have it in their rows: behind what stands there
/// while there is room, and else the row is taken anew, with parameter 1.2, from what it
/// held and the new vector. No other row changes.
pub proof fn neighbours_link_back<D: Distance>(
    pre: &DeltaLayer,
    v: Seq<u32>,
    dist: D,
    mid: &DeltaLayer,
    query: &[u32],
    t: Trace,
    cands: Seq<Candidate>,
    post: &DeltaLayer,
    u: int,
)
    requires
        0 <= u < pre.vectors@.len() < u32::MAX,
        delta::inserted(pre, v, dist, mid, query, t, cands, post),
    ensures
        ({
            let n = pre.vectors@.len() as int;
            let table = Table { vectors: &post.vectors, dist };
            let before = pre.graph@[u]@;
            let after = post.graph@[u]@;
            if !post.graph@[n]@.contains(u as u32) || before.contains(n as u32) {
                after == before
            } else if before.len() < pre.max_degree {
                after == before + seq![n as u32]
            } else {
                exists|pool: Seq<Candidate>|
                    are_measured(dist, post.vectors@, post.vectors@[u]@, pool) && pool.len()
                        == before.len() + 1 && pool.last().id == n && (forall|i: int|
                        0 <= i < before.len() ==> (#[trigger] pool[i]).id == before[i])
                        && #[trigger] building::is_taken_from(
                        &table,
                        u as u32,
                        pool,
                        pre.max_degree as int,
                        0x3f99_999a,
                        after,
                    )
            }
        }),
{
    let n = pre.vectors@.len() as int;
    let table = Table { vectors: &post.vectors, dist };
    let before = pre.graph@[u]@;
    let after = post.graph@[u]@;
    if post.graph@[n]@.contains(u as u32) && !before.contains(n as u32) {
        assert(delta::linked(&table, u as u32, n as u32, pre.max_degree as int, before, after));
        if before.len() < pre.max_degree {
            assert(before.push(n as u32) =~= before + seq![n as u32]);
        } else {
            let pool = delta::pool_of(&table, u as u32, before.push(n as u32));
            diverse::rows_are_diverse(
                &table,
                u as u32,
                pool,
                pre.max_degree as int,
                delta::DELTA_ALPHA,
                after,
            );
            assert(pool.last().id == n);
            assert(are_measured(dist, post.vectors@, post.vectors@[u]@, pool));
            assert(building::is_taken_from(
                &table,
                u as u32,
                pool,
                pre.max_degree as int,
                0x3f99_999a,
                after,
            ));
        }
    }
}

proof fn lemma_closest<D: Distance>(
    dist: D,
    vectors: Seq<Vec<u32>>,
    point: Seq<u32>,
    upto: int,
    j: int,
)
    requires
        0 <= j < upto <= vectors.len(),
        forall|i: int|
            0 <= i < upto ==> !word::is_nan(#[trigger] dist.eval_spec(point, vectors[i]@)),
    ensures
        ({
            let best = delta::closest_upto(dist, vectors, point, upto);
            &&& 0 <= best.0 < upto
            &&& best.1 == dist.eval_spec(point, vectors[best.0]@)
            &&& word::order(best.1) <= word::order(dist.eval_spec(point, vectors[j]@))
            &&& j < best.0 ==> word::order(best.1) < word::order(
                dist.eval_spec(point, vectors[j]@),
            )
        }),
    decreases upto,
{
    reveal_with_fuel(delta::closest_upto, 2);
    assert(!word::is_nan(dist.eval_spec(point, vectors[upto - 1]@)));
    assert(!word::is_nan(dist.eval_spec(point, vectors[0]@)));
    assert(!word::is_nan(dist.eval_spec(point, vectors[j]@)));
    if upto > 1 {
        let k = if j < upto - 1 {
            j
        } else {
            0
        };
        lemma_closest(dist, vectors, point, upto - 1, k);
        let b = delta::closest_upto(dist, vectors, point, upto - 1);
        assert(!word::is_nan(dist.eval_spec(point, vectors[b.0]@)));
    }
}

/// After vectors were added, a layer of two or more is entered at the first of the vectors
/// nearest to the mean of all.
pub proof fn layer_is_entered_near_the_mean<D: Distance>(
    pre: DeltaLayer,
    vectors: Seq<Vec<u32>>,
    dist: D,
    states: Seq<DeltaLayer>,
    post: DeltaLayer,
    j: int,
)
    requires
        delta::extended(pre, vectors, dist, states, post),
        2 <= post.vectors@.len() <= u32::MAX,
        0 <= j < post.vectors@.len(),
        forall|i: int|
            0 <= i < post.vectors@.len() ==> !word::is_nan(
                #[trigger] dist.eval_spec(
                    metric::mean_of(dist, metric::rows(post.vectors@)),
                    post.vectors@[i]@,
                ),
            ),
    ensures
        ({
            let mean = metric::mean_of(dist, metric::rows(post.vectors@));
            &&& post.entry_point matches Some(e) && e < post.vectors@.len() && {
                let d = word::order(dist.eval_spec(mean, post.vectors@[e as int]@));
                if j < e {
                    d < word::order(dist.eval_spec(mean, post.vectors@[j]@))
                } else {
                    d <= word::order(dist.eval_spec(mean, post.vectors@[j]@))
                }
            }
        }),
{
    let mean = metric::mean_of(dist, metric::rows(post.vectors@));
    lemma_closest(dist, post.vectors@, mean, post.vectors@.len() as int, j);
}

/// A search of a layer answers with the nearest it found, at their distances from the
/// query, under ids from 2^48 on.
pub proof fn layer_answers_are_measured<D: Distance>(
    layer: &DeltaLayer,
    query: &[u32],
    k: int,
    beam_width: int,
    dist: D,
    t: Trace,
    all: Seq<Candidate>,
    r: Seq<Hit>,
    i: int,
)
    requires
        0 <= k,
        layer.wf(query@.len() as int),
        delta::delta_found(layer, query, k, beam_width, dist, t, all, r),
        0 <= i < r.len(),
    ensures
        r.len() <= k,
        r.len() < k ==> r.len() == all.len(),
        0x1_0000_0000_0000 <= r[i].id < 0x1_0000_0000_0000 + layer.vectors@.len(),
        r[i].dist == dist.eval_spec(
            query@,
            layer.vectors@[r[i].id - 0x1_0000_0000_0000]@,
        ),
        i > 0 ==> word::rank(r[i - 1].dist) <= word::rank(r[i].dist),
{
    let start = match layer.entry_point {
        Some(e) => e,
        None => 0u32,
    };
    let space = PointSpace { vectors: &layer.vectors, graph: &layer.graph, dist, query };
    assert(delta::found_from(&space, start, beam_width, t, all));
    lemma_found(&space, start, beam_width, t, all);
    let nearest = candidate::first(all, k);
    assert(r[i].id == delta::DELTA_ID_OFFSET + nearest[i].id);
    assert(nearest[i] == all[i]);
    assert(space.holds(start));
    assert(beam::is_closed(&space));
    beam::answers_are_sound(
        &space,
        seq![start],
        beam_width,
        usize::MAX as int,
        beam::unbounded(),
        t,
        all,
    );
    assert(space.holds(all[i].id));
}

} // verus!
