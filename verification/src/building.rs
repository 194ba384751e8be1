//! What a built graph and a built index are, in terms of the vectors alone.
use vstd::prelude::*;
use crate::bytes;
use crate::candidate;
use crate::candidate::Candidate;
use crate::diverse;
use crate::error::Fault;
use crate::index;
use crate::index::DiskANN;
use crate::metric;
use crate::metric::Distance;
use crate::prune;
use crate::prune::Pairs;
use crate::vamana;
use crate::vamana::Table;
use crate::wire;
use crate::word;

verus! {

/// The candidates for a row of node `u`: every node named, none of them twice, each with
/// the distance between the two vectors.
pub open spec fn offers<D: Distance>(
    table: &Table<D>,
    u: int,
    named: Set<u32>,
    pool: Seq<Candidate>,
) -> bool {
    &&& candidate::distinct(pool)
    &&& forall|i: int|
        0 <= i < pool.len() ==> named.contains((#[trigger] pool[i]).id) && pool[i].dist
            == table.dist.eval_spec(table.vectors@[u]@, table.vectors@[pool[i].id as int]@)
    &&& forall|id: u32| #[trigger] named.contains(id) ==> candidate::holds_id(pool, id)
}

/// The row was taken from the candidates: those that nothing nearer hides before those that
/// are hidden, and then the nearest.
pub open spec fn is_taken_from<P: Pairs>(
    pairs: &P,
    node: u32,
    pool: Seq<Candidate>,
    max_degree: int,
    alpha: u32,
    row: Seq<u32>,
) -> bool {
    exists|near: Seq<Candidate>, picks: Seq<int>|
        #![trigger diverse::is_row_of(near, max_degree, picks, row)]
        diverse::lists_others(node, pool, near) && diverse::is_row_of(near, max_degree, picks, row)
            && diverse::takes_unhidden_first(pairs, alpha, near, picks)
            && diverse::fills_nearest_first(pairs, alpha, near, picks)
}

proof fn lemma_pruned<P: Pairs>(
    pairs: &P,
    node: u32,
    pool: Seq<Candidate>,
    max_degree: int,
    alpha: u32,
    row: Seq<u32>,
)
    requires
        0 <= max_degree,
        prune::pruned(pairs, node, pool, max_degree, alpha, row),
    ensures
        is_taken_from(pairs, node, pool, max_degree, alpha, row),
{
    diverse::rows_are_diverse(pairs, node, pool, max_degree, alpha, row);
}

/// The nodes that a proposal names for `u`, and those whose proposals name `u`.
pub open spec fn both_ways(proposals: Seq<Seq<u32>>, u: int) -> Set<u32> {
    Set::new(
        |id: u32|
            id != u && (proposals[u].contains(id) || (id < proposals.len()
                && proposals[id as int].contains(u as u32))),
    )
}

/// The row of a node after a refinement is taken from the nodes that its proposal names
/// and from those whose proposals name it.
pub proof fn edges_run_both_ways<D: Distance>(
    table: &Table<D>,
    graph: &Vec<Vec<u32>>,
    seeds: Seq<Vec<u32>>,
    beam_width: int,
    max_degree: int,
    alpha: u32,
    proposals: Seq<Seq<u32>>,
    out: Seq<Vec<u32>>,
    u: int,
)
    requires
        0 <= max_degree,
        table.vectors@.len() <= u32::MAX,
        0 <= u < table.vectors@.len(),
        vamana::refined(table, graph, seeds, beam_width, max_degree, alpha, proposals, out),
    ensures
        exists|pool: Seq<Candidate>| #[trigger]
            offers(table, u, both_ways(proposals, u), pool) && is_taken_from(
                table,
                u as u32,
                pool,
                max_degree,
                alpha,
                out[u]@,
            ),
{
    assert(vamana::joined(table, proposals, u as u32, max_degree, alpha, out[u]@));
    let pool = choose|pool: Seq<Candidate>| #[trigger]
        vamana::is_pool(table, u as u32, pool) && (forall|id: u32| #[trigger]
            candidate::holds_id(pool, id) <==> vamana::meets(proposals, u as u32, id))
            && prune::pruned(table, u as u32, pool, max_degree, alpha, out[u]@);
    lemma_pruned(table, u as u32, pool, max_degree, alpha, out[u]@);
    let named = both_ways(proposals, u);
    assert forall|i: int| 0 <= i < pool.len() implies named.contains((#[trigger] pool[i]).id) by {
        assert(candidate::holds_id(pool, pool[i].id));
    }
    assert forall|id: u32| #[trigger] named.contains(id) implies candidate::holds_id(pool, id) by {
        assert(vamana::meets(proposals, u as u32, id));
    }
    assert(offers(table, u, named, pool));
}

/// The nodes in the present row of `u`, and those that the searches found.
pub open spec fn row_and_found(row: Seq<u32>, found: Seq<Seq<Candidate>>) -> Set<u32> {
    Set::new(
        |id: u32|
            row.contains(id) || exists|i: int|
                0 <= i < found.len() && candidate::holds_id(#[trigger] found[i], id),
    )
}

/// Each of the searches for node `u`, one from each seed, found what is listed.
pub open spec fn are_searches<D: Distance>(
    table: &Table<D>,
    graph: &Vec<Vec<u32>>,
    u: int,
    seeds: Seq<u32>,
    beam_width: int,
    found: Seq<Seq<Candidate>>,
) -> bool {
    &&& found.len() == seeds.len()
    &&& forall|i: int|
        0 <= i < seeds.len() ==> vamana::greedy_finds(
            &vamana::GraphSpace { table, graph, query: u as u32 },
            seeds[i],
            beam_width,
            #[trigger] found[i],
        )
}

/// The row proposed for a node is taken from its present row and from what searches for it
/// through the present graph find, one search from each seed.
pub proof fn proposals_come_from_searches<D: Distance>(
    table: &Table<D>,
    graph: &Vec<Vec<u32>>,
    seeds: Seq<Vec<u32>>,
    beam_width: int,
    max_degree: int,
    alpha: u32,
    proposals: Seq<Seq<u32>>,
    out: Seq<Vec<u32>>,
    u: int,
)
    requires
        0 <= max_degree,
        table.vectors@.len() <= u32::MAX,
        0 <= u < table.vectors@.len(),
        vamana::refined(table, graph, seeds, beam_width, max_degree, alpha, proposals, out),
    ensures
        exists|found: Seq<Seq<Candidate>>, pool: Seq<Candidate>|
            are_searches(table, graph, u, seeds[u]@, beam_width, found) && #[trigger] offers(
                table,
                u,
                row_and_found(graph@[u]@, found),
                pool,
            ) && is_taken_from(table, u as u32, pool, max_degree, alpha, proposals[u]),
{
    let space = vamana::space_of(table, graph, u);
    assert(vamana::proposed(&space, seeds[u]@, beam_width, max_degree, alpha, proposals[u]));
    let (found, pool) = choose|found: Seq<Seq<Candidate>>, pool: Seq<Candidate>| #[trigger]
        vamana::gathered(&space, seeds[u]@, beam_width, found, pool) && prune::pruned(
            space.table,
            space.query,
            pool,
            max_degree,
            alpha,
            proposals[u],
        );
    lemma_pruned(table, u as u32, pool, max_degree, alpha, proposals[u]);
    let named = row_and_found(graph@[u]@, found);
    assert forall|i: int| 0 <= i < pool.len() implies named.contains((#[trigger] pool[i]).id) by {
        assert(candidate::holds_id(pool, pool[i].id));
    }
    assert(offers(table, u, named, pool));
    assert(are_searches(table, graph, u, seeds[u]@, beam_width, found));
}

/// One pass over a graph: every node is searched for from three nodes, the medoid first
/// among them.
pub open spec fn is_pass<D: Distance>(
    table: &Table<D>,
    before: &Vec<Vec<u32>>,
    beam_width: int,
    max_degree: int,
    alpha: u32,
    medoid: u32,
    after: Seq<Vec<u32>>,
) -> bool {
    exists|seeds: Seq<Vec<u32>>, proposals: Seq<Seq<u32>>|
        start_from(seeds, table.vectors@.len() as int, medoid) && #[trigger] vamana::refined(
            table,
            before,
            seeds,
            beam_width,
            max_degree,
            alpha,
            proposals,
            after,
        )
}

/// Three nodes for every node, the first of them the medoid.
pub open spec fn start_from(seeds: Seq<Vec<u32>>, n: int, medoid: u32) -> bool {
    forall|u: int|
        0 <= u < n ==> (#[trigger] seeds[u])@.len() == 3 && seeds[u]@[0] == medoid && seeds[u]@[1]
            < n && seeds[u]@[2] < n
}

/// Every node begins with different other nodes: half as many as a row may hold, but no
/// fewer than two, or all others where there are not so many.
pub open spec fn is_start(graph: Seq<Vec<u32>>, n: int, max_degree: int) -> bool {
    &&& graph.len() == n
    &&& forall|u: int|
        0 <= u < n ==> {
            let row = (#[trigger] graph[u])@;
            &&& row.no_duplicates()
            &&& !row.contains(u as u32)
            &&& forall|i: int| 0 <= i < row.len() ==> #[trigger] row[i] < n
            &&& row.len() == if max_degree < 4 {
                if n <= 3 {
                    n - 1
                } else {
                    2
                }
            } else if n - 1 <= max_degree / 2 {
                n - 1
            } else {
                max_degree / 2
            }
        }
}

proof fn lemma_follows<D: Distance>(
    table: &Table<D>,
    before: &Vec<Vec<u32>>,
    beam_width: int,
    max_degree: int,
    alpha: u32,
    medoid: u32,
    after: &Vec<Vec<u32>>,
)
    requires
        vamana::follows(table, before, beam_width, max_degree, alpha, medoid, after),
    ensures
        is_pass(table, before, beam_width, max_degree, alpha, medoid, after@),
{
    let (seeds, proposals) = choose|seeds: Seq<Vec<u32>>, proposals: Seq<Seq<u32>>| #[trigger]
        vamana::is_refinement(
            table,
            before,
            seeds,
            beam_width,
            max_degree,
            alpha,
            medoid,
            proposals,
            after@,
        );
    let n = table.vectors@.len() as int;
    assert forall|u: int| 0 <= u < n implies (#[trigger] seeds[u])@.len() == 3 && seeds[u]@[0]
        == medoid && seeds[u]@[1] < n && seeds[u]@[2] < n by {
        assert(seeds[u]@[1] < n);
        assert(seeds[u]@[2] < n);
    }
    assert(start_from(seeds, n, medoid));
}

/// A graph is built in two passes over rows taken by chance.
pub proof fn building_takes_two_passes<D: Distance>(
    table: &Table<D>,
    beam_width: int,
    max_degree: int,
    alpha: u32,
    medoid: u32,
    graph: Seq<Vec<u32>>,
)
    requires
        0 <= max_degree,
        0 < table.vectors@.len() <= u32::MAX,
        vamana::is_vamana(table, beam_width, max_degree, alpha, medoid, graph),
    ensures
        exists|first: Vec<Vec<u32>>, second: Vec<Vec<u32>>|
            is_start(first@, table.vectors@.len() as int, max_degree) && #[trigger] is_pass(
                table,
                &first,
                beam_width,
                max_degree,
                alpha,
                medoid,
                second@,
            ) && is_pass(table, &second, beam_width, max_degree, alpha, medoid, graph),
{
    let graphs = choose|graphs: Seq<Vec<Vec<u32>>>| #[trigger]
        vamana::are_passes(table, beam_width, max_degree, alpha, medoid, graphs) && graphs.len()
            == vamana::PASSES + 1 && graphs.last()@ == graph;
    let n = table.vectors@.len() as int;
    assert(vamana::follows(table, &graphs[0], beam_width, max_degree, alpha, medoid, &graphs[1]));
    assert(vamana::follows(table, &graphs[1], beam_width, max_degree, alpha, medoid, &graphs[2]));
    lemma_follows(table, &graphs[0], beam_width, max_degree, alpha, medoid, &graphs[1]);
    lemma_follows(table, &graphs[1], beam_width, max_degree, alpha, medoid, &graphs[2]);
    let first = graphs[0];
    assert forall|u: int| 0 <= u < n implies {
        let row = (#[trigger] first@[u])@;
        &&& row.no_duplicates()
        &&& !row.contains(u as u32)
        &&& forall|i: int| 0 <= i < row.len() ==> #[trigger] row[i] < n
        &&& row.len() == if max_degree < 4 {
            if n <= 3 {
                n - 1
            } else {
                2
            }
        } else if n - 1 <= max_degree / 2 {
            n - 1
        } else {
            max_degree / 2
        }
    } by {
        let row = first@[u]@;
        assert(vamana::valid_row(row, u, n, vamana::bootstrap_degree(max_degree, n)));
    }
    assert(is_start(first@, n, max_degree));
}

/// A built index starts its searches at the first vector that no other is nearer to the mean
/// of all than, as long as the distances from the mean are numbers and some are finite.
pub proof fn medoid_is_nearest_to_the_mean<'a, D: Distance>(
    index: &DiskANN<'a, D>,
    vectors: &Vec<Vec<u32>>,
    max_degree: int,
    build_beam_width: int,
    alpha: u32,
    dist: D,
    j: int,
)
    requires
        index.is_built_from(vectors, max_degree, build_beam_width, alpha, dist),
        0 <= j < vectors@.len(),
        forall|i: int|
            0 <= i < vectors@.len() ==> !word::is_nan(
                #[trigger] dist.eval_spec(
                    metric::mean_of(dist, metric::rows(vectors@)),
                    vectors@[i]@,
                ),
            ),
        exists|i: int|
            0 <= i < vectors@.len() && word::less(
                #[trigger] dist.eval_spec(
                    metric::mean_of(dist, metric::rows(vectors@)),
                    vectors@[i]@,
                ),
                0x7f7f_ffff,
            ),
    ensures
        ({
            let mean = metric::mean_of(dist, metric::rows(vectors@));
            &&& index.medoid_id < vectors@.len()
            &&& word::order(dist.eval_spec(mean, vectors@[index.medoid_id as int]@))
                <= word::order(dist.eval_spec(mean, vectors@[j]@))
            &&& j < index.medoid_id ==> word::order(
                dist.eval_spec(mean, vectors@[index.medoid_id as int]@),
            ) < word::order(dist.eval_spec(mean, vectors@[j]@))
        }),
{
    let mean = metric::mean_of(dist, metric::rows(vectors@));
    let n = vectors@.len() as int;
    let i = choose|i: int|
        0 <= i < n && word::less(#[trigger] dist.eval_spec(mean, vectors@[i]@), 0x7f7f_ffff);
    vamana::medoid_is_nearest(dist, vectors@, mean, n, i);
    vamana::medoid_is_nearest(dist, vectors@, mean, n, j);
    lemma_first_nearest(dist, vectors@, mean, n, j);
}

proof fn lemma_first_nearest<D: Distance>(
    dist: D,
    vectors: Seq<Vec<u32>>,
    point: Seq<u32>,
    upto: int,
    j: int,
)
    requires
        0 <= j < upto <= vectors.len(),
        forall|i: int|
            0 <= i < upto ==> !word::is_nan(#[trigger] dist.eval_spec(point, vectors[i]@)),
    ensures
        ({
            let best = vamana::nearest_upto(dist, vectors, point, upto);
            &&& 0 <= best.0 < upto
            &&& j < best.0 ==> word::order(best.1) < word::order(
                dist.eval_spec(point, vectors[j]@),
            )
        }),
    decreases upto,
{
    reveal_with_fuel(vamana::nearest_upto, 2);
    assert(!word::is_nan(dist.eval_spec(point, vectors[upto - 1]@)));
    if upto > 1 {
        let k = if j < upto - 1 {
            j
        } else {
            0
        };
        lemma_first_nearest(dist, vectors, point, upto - 1, k);
        vamana::medoid_is_nearest(dist, vectors, point, upto - 1, k);
    }
}

/// A built index is laid out so: the word 0x44414e4e, the version 1, the length of the
/// header, the header; from byte 0x100000 on the vectors, four bytes to a component; and
/// right behind them the rows, four bytes to a neighbour.
pub proof fn built_index_is_laid_out<'a, D: Distance>(
    ix: &DiskANN<'a, D>,
    vectors: &Vec<Vec<u32>>,
    max_degree: int,
    build_beam_width: int,
    alpha: u32,
    dist: D,
    i: int,
)
    requires
        0 < vectors@.len(),
        ix.is_built_from(vectors, max_degree, build_beam_width, alpha, dist),
        0 <= i < vectors@.len(),
    ensures
        ({
            let b = ix.storage@;
            let n = vectors@.len() as int;
            let dim = vectors@[0]@.len() as int;
            let rows = 0x10_0000 + 4 * (n * dim);
            let record = ix.header_record();
            &&& bytes::word_at(b, 0) == 0x4441_4e4e
            &&& bytes::word_at(b, 4) == 1
            &&& bytes::le_value(b.subrange(8, 16)) == record.len()
            &&& b.subrange(16, 16 + record.len() as int) == record
            &&& bytes::words_at(b, 0x10_0000 + 4 * (i * dim), dim) == vectors@[i]@
            &&& b.len() == rows + 4 * (n * max_degree)
            &&& ix.row(i) == bytes::words_at(b, rows + 4 * (i * max_degree), max_degree)
            &&& ix.links(i) == ix.row(i).filter(|w: u32| w != 0xffff_ffff)
        }),
{
    let b = ix.storage@;
    let record = ix.header_record();
    let head = index::head_bytes(record);
    assert(wire::begins_with(b, head));
    bytes::lemma_le32(index::CORE_MAGIC);
    bytes::lemma_le32(index::CORE_FORMAT_VERSION);
    bytes::lemma_pow256();
    bytes::lemma_le_bytes_len(record.len(), 8);
    bytes::lemma_le_round_trip(record.len(), 8);
    assert(head.len() == 16 + record.len());
    assert(b.take(head.len() as int) == head);
    assert(b.subrange(0, 4) =~= head.subrange(0, 4)) by {
        assert(b.take(head.len() as int).subrange(0, 4) =~= b.subrange(0, 4));
    }
    assert(b.subrange(4, 8) =~= head.subrange(4, 8)) by {
        assert(b.take(head.len() as int).subrange(4, 8) =~= b.subrange(4, 8));
    }
    assert(b.subrange(8, 16) =~= head.subrange(8, 16)) by {
        assert(b.take(head.len() as int).subrange(8, 16) =~= b.subrange(8, 16));
    }
    assert(b.subrange(16, 16 + record.len() as int) =~= head.subrange(16, 16 + record.len() as int)) by {
        assert(b.take(head.len() as int).subrange(16, 16 + record.len() as int) =~= b.subrange(
            16,
            16 + record.len() as int,
        ));
    }
    assert(head.subrange(0, 4) =~= bytes::le32(index::CORE_MAGIC));
    assert(head.subrange(4, 8) =~= bytes::le32(index::CORE_FORMAT_VERSION));
    assert(head.subrange(8, 16) =~= bytes::le_bytes(record.len(), 8));
    assert(head.subrange(16, 16 + record.len() as int) =~= record);
    let n = vectors@.len() as int;
    let dim = vectors@[0]@.len() as int;
    assert(i * dim * 4 == 4 * (i * dim)) by (nonlinear_arith);
    assert(n * dim * 4 == 4 * (n * dim)) by (nonlinear_arith);
    assert(i * max_degree * 4 == 4 * (i * max_degree)) by (nonlinear_arith);
    assert(n * max_degree * 4 == 4 * (n * max_degree)) by (nonlinear_arith);
    assert(ix.vector(i) == vectors@[i]@);
    assert(index::is_real() =~= (|w: u32| w != 0xffff_ffff));
}

/// Vectors are unfit for an index when there are none, or when one is not as long as the
/// first; then the first such one is named, with both lengths.
pub proof fn unfit_vectors_are_named(vectors: Seq<Vec<u32>>)
    requires
        vectors.len() <= usize::MAX,
    ensures
        vectors.len() == 0 <==> index::shape_fault(vectors) == Some(Fault::NoVectors),
        index::shape_fault(vectors) is None <==> vectors.len() > 0 && forall|i: int|
            0 <= i < vectors.len() ==> (#[trigger] vectors[i])@.len() == vectors[0]@.len(),
        index::shape_fault(vectors) matches Some(
            Fault::DimensionMismatch { index: at, found, expected },
        ) ==> 0 < at < vectors.len() && expected == vectors[0]@.len() && found
            == vectors[at as int]@.len() && found != expected && forall|i: int|
            0 <= i < at ==> (#[trigger] vectors[i])@.len() == expected,
{
    if vectors.len() > 0 {
        lemma_mismatch(vectors, vectors[0]@.len() as int, 0);
        match index::first_mismatch(vectors, vectors[0]@.len() as int, 0) {
            Some(i) => {
                let v = vectors[i];
                assert(v@.len() == v.len());
            },
            None => {},
        }
        let v = vectors[0];
        assert(v@.len() == v.len());
    }
}

pub(crate) proof fn lemma_mismatch(vectors: Seq<Vec<u32>>, dim: int, from: int)
    requires
        0 <= from,
    ensures
        match index::first_mismatch(vectors, dim, from) {
            Some(at) => from <= at < vectors.len() && vectors[at]@.len() != dim && forall|i: int|
                from <= i < at ==> (#[trigger] vectors[i])@.len() == dim,
            None => forall|i: int|
                from <= i < vectors.len() ==> (#[trigger] vectors[i])@.len() == dim,
        },
    decreases vectors.len() - from,
{
    if from < vectors.len() && vectors[from]@.len() == dim {
        lemma_mismatch(vectors, dim, from + 1);
    }
}

} // verus!
