//! Building a proximity graph over vectors held in memory.
use crate::beam;
use crate::beam::BeamSearchConfig;
use crate::beam::SearchSpace;
use crate::beam::Trace;
use crate::beam::beam_search;
use crate::candidate;
use crate::candidate::Candidate;
use crate::csr;
use crate::csr::build_incoming_csr;
use crate::metric;
use crate::metric::Distance;
use crate::prune;
use crate::prune::Pairs;
use crate::prune::robust_prune;
use crate::random::random_below;
use crate::random::shuffle;
use crate::word;
use std::collections::HashSet;
use vstd::prelude::*;

verus! {

/// The largest finite number.
pub const FARTHEST: u32 = 0x7f7f_ffff;

/// How often the graph is refined.
pub const PASSES: usize = 2;

/// Random starts of the searches that gather a node's candidates, beside the medoid.
pub const EXTRA_SEEDS: usize = 2;

/// All vectors have `dim` components.
pub open spec fn uniform(vectors: Seq<Vec<u32>>, dim: int) -> bool {
    forall|i: int| 0 <= i < vectors.len() ==> (#[trigger] vectors[i])@.len() == dim
}

/// The nearest of the first `upto` vectors to a point, with its distance; position 0 at
/// the largest finite distance when none is nearer than that.
pub open spec fn nearest_upto<D: Distance>(
    dist: D,
    vectors: Seq<Vec<u32>>,
    point: Seq<u32>,
    upto: int,
) -> (int, u32)
    decreases upto,
{
    if upto <= 0 {
        (0, FARTHEST)
    } else {
        let best = nearest_upto(dist, vectors, point, upto - 1);
        let d = dist.eval_spec(point, vectors[upto - 1]@);
        if word::at_most(best.1, d) {
            best
        } else {
            (upto - 1, d)
        }
    }
}

/// The position of the vector closest to the mean of all.
pub fn calculate_medoid<D: Distance>(vectors: &Vec<Vec<u32>>, dist: D) -> (r: usize)
    requires
        vectors@.len() > 0,
        uniform(vectors@, vectors@[0]@.len() as int),
    ensures
        r < vectors@.len(),
        r == nearest_upto(
            dist,
            vectors@,
            metric::mean_of(dist, metric::rows(vectors@)),
            vectors@.len() as int,
        ).0,
{
    let centroid = metric::mean(dist, vectors);
    let mut best: usize = 0;
    let mut best_dist: u32 = FARTHEST;
    let mut i: usize = 0;
    while i < vectors.len()
        invariant
            i <= vectors@.len(),
            vectors@.len() > 0,
            uniform(vectors@, vectors@[0]@.len() as int),
            centroid@.len() == vectors@[0]@.len(),
            best < vectors@.len(),
            (best as int, best_dist) == nearest_upto(dist, vectors@, centroid@, i as int),
        decreases vectors@.len() - i,
    {
        assert(vectors@[i as int]@.len() == vectors@[0]@.len());
        let d: u32 = dist.eval(&centroid, &vectors[i]);
        if !word::le(best_dist, d) {
            best = i;
            best_dist = d;
        }
        i = i + 1;
    }
    best
}

/// The medoid is as near to the point as any vector, unless no vector is nearer than
/// the largest finite distance.
pub proof fn medoid_is_nearest<D: Distance>(
    dist: D,
    vectors: Seq<Vec<u32>>,
    point: Seq<u32>,
    upto: int,
    j: int,
)
    requires
        0 <= j < upto <= vectors.len(),
        forall|i: int|
            0 <= i < upto ==> !word::is_nan(#[trigger] dist.eval_spec(point, vectors[i]@)),
    ensures
        ({
            let best = nearest_upto(dist, vectors, point, upto);
            &&& !word::is_nan(best.1)
            &&& word::order(best.1) <= word::order(dist.eval_spec(point, vectors[j]@))
            &&& best.1 == FARTHEST || (0 <= best.0 < upto && best.1 == dist.eval_spec(
                point,
                vectors[best.0]@,
            ))
        }),
    decreases upto,
{
    reveal_with_fuel(nearest_upto, 2);
    assert(!word::is_nan(dist.eval_spec(point, vectors[upto - 1]@)));
    if upto > 1 {
        let k = if j < upto - 1 {
            j
        } else {
            0
        };
        medoid_is_nearest(dist, vectors, point, upto - 1, k);
    }
}

/// Vectors of one length, with the distances between them.
pub struct Table<'a, D: Distance> {
    pub vectors: &'a Vec<Vec<u32>>,
    pub dist: D,
}

impl<'a, D: Distance> Table<'a, D> {
    /// All vectors are as long as the first.
    pub open spec fn wf(&self) -> bool {
        self.vectors@.len() > 0 && uniform(self.vectors@, self.vectors@[0]@.len() as int)
    }
}

impl<'a, D: Distance> Pairs for Table<'a, D> {
    open spec fn has(&self, id: u32) -> bool {
        self.wf() && id < self.vectors@.len()
    }

    open spec fn pair(&self, a: u32, b: u32) -> u32 {
        self.dist.eval_spec(self.vectors@[a as int]@, self.vectors@[b as int]@)
    }

    open spec fn quotient_of(&self, a: u32, b: u32) -> u32 {
        self.dist.quotient_spec(a, b)
    }

    open spec fn product_of(&self, a: u32, b: u32) -> u32 {
        self.dist.product_spec(a, b)
    }

    fn between(&self, a: u32, b: u32) -> (d: u32) {
        assert(self.vectors@[a as int]@.len() == self.vectors@[b as int]@.len());
        self.dist.eval(&self.vectors[a as usize], &self.vectors[b as usize])
    }

    fn divide(&self, a: u32, b: u32) -> (r: u32) {
        self.dist.quotient(a, b)
    }

    fn multiply(&self, a: u32, b: u32) -> (r: u32) {
        self.dist.product(a, b)
    }
}

/// The rows of a graph hold node ids only.
pub open spec fn valid_graph(graph: Seq<Vec<u32>>, n: int) -> bool {
    &&& graph.len() == n
    &&& forall|u: int, i: int|
        0 <= u < graph.len() && 0 <= i < graph[u]@.len() ==> #[trigger] graph[u]@[i] < n
}

/// A graph over a table, as the vector at one position searches it.
pub struct GraphSpace<'a, D: Distance> {
    pub table: &'a Table<'a, D>,
    pub graph: &'a Vec<Vec<u32>>,
    pub query: u32,
}

impl<'a, D: Distance> SearchSpace for GraphSpace<'a, D> {
    open spec fn holds(&self, id: u32) -> bool {
        self.table.has(id) && self.table.has(self.query) && valid_graph(
            self.graph@,
            self.table.vectors@.len() as int,
        )
    }

    open spec fn dist_of(&self, id: u32) -> u32 {
        self.table.pair(self.query, id)
    }

    open spec fn links_of(&self, id: u32) -> Seq<u32> {
        self.graph@[id as int]@
    }

    open spec fn keeps(&self, id: u32) -> bool {
        true
    }

    open spec fn scaled(&self, dist: u32, factor: u32) -> u32 {
        self.table.product_of(dist, factor)
    }

    fn distance(&self, id: u32) -> (d: u32) {
        self.table.between(self.query, id)
    }

    fn neighbors(&self, id: u32) -> (r: Vec<u32>) {
        self.graph[id as usize].clone()
    }

    fn keep(&self, id: u32) -> (r: bool) {
        true
    }

    fn scale(&self, dist: u32, factor: u32) -> (r: u32) {
        self.table.multiply(dist, factor)
    }
}

/// The search that gathers candidates during construction: the whole beam of a search
/// from one node, nearest first.
pub open spec fn greedy_outcome<D: Distance>(
    space: &GraphSpace<D>,
    start: u32,
    beam_width: int,
    t: Trace,
    r: Seq<Candidate>,
) -> bool {
    &&& beam::search_outcome(
        space,
        seq![start],
        beam_width,
        usize::MAX as int,
        beam::unbounded(),
        t,
        r,
    )
    &&& beam::explored(space, seq![start], beam_width, t)
    &&& beam::finished(space, beam_width, t)
    &&& candidate::same_items(r, t.beam)
    &&& candidate::ranked(r)
}

/// What a construction search from `start` returns.
pub open spec fn greedy_finds<D: Distance>(
    space: &GraphSpace<D>,
    start: u32,
    beam_width: int,
    r: Seq<Candidate>,
) -> bool {
    exists|t: Trace| #[trigger] greedy_outcome(space, start, beam_width, t, r)
}

/// Searches the graph from `start_id` and returns the beam.
pub fn greedy_search<D: Distance>(
    space: &GraphSpace<D>,
    start_id: u32,
    beam_width: usize,
) -> (r: Vec<Candidate>)
    requires
        space.holds(start_id),
    ensures
        greedy_finds(space, start_id, beam_width as int, r@),
{
    let starts: Vec<u32> = vec![start_id];
    assert(starts@ =~= seq![start_id]);
    let config = BeamSearchConfig::default();
    let r = beam_search(space, starts.as_slice(), beam_width, usize::MAX, config);
    proof {
        let t = choose|t: Trace| #[trigger]
            beam::search_outcome(
                space,
                starts@,
                beam_width as int,
                usize::MAX as int,
                config,
                t,
                r@,
            );
        beam::lemma_admitted(space, t.beam);
        let all = choose|all: Seq<Candidate>| #[trigger]
            candidate::same_items(all, t.beam) && candidate::ranked(all) && r@ == candidate::first(
                all,
                usize::MAX as int,
            );
        assert(all.to_multiset() =~= t.beam.to_multiset());
        candidate::lemma_same_items(all, t.beam);
        assert(t.beam.len() <= usize::MAX) by {
            assert(t.beam.len() <= beam_width || t.beam.len() <= 1);
        }
        assert(r@ =~= all);
        assert(greedy_outcome(space, start_id, beam_width as int, t, r@));
    }
    r
}

/// Prunes candidates of the node at one position.
pub fn prune_neighbors<D: Distance>(
    table: &Table<D>,
    node_id: u32,
    candidates: &Vec<Candidate>,
    max_degree: usize,
    alpha: u32,
) -> (r: Vec<u32>)
    requires
        forall|i: int|
            0 <= i < candidates@.len() ==> table.has((#[trigger] candidates@[i]).id),
    ensures
        prune::pruned(table, node_id, candidates@, max_degree as int, alpha, r@),
{
    robust_prune(table, node_id, candidates, max_degree, alpha)
}

/// A pool of candidates of node `u`: nodes, none of them twice, each with its distance
/// from `u`.
pub open spec fn is_pool<D: Distance>(table: &Table<D>, u: u32, pool: Seq<Candidate>) -> bool {
    &&& candidate::distinct(pool)
    &&& forall|i: int|
        0 <= i < pool.len() ==> table.has((#[trigger] pool[i]).id) && pool[i].dist == table.pair(
            u,
            pool[i].id,
        )
}

/// Adds an id to a pool, with its distance, unless it is there already.
fn pool_in<D: Distance>(
    table: &Table<D>,
    u: u32,
    pool: &mut Vec<Candidate>,
    ids: &mut HashSet<u32>,
    id: u32,
)
    requires
        table.has(u),
        table.has(id),
        is_pool(table, u, old(pool)@),
        forall|x: u32| #[trigger]
            old(ids)@.contains(x) <==> candidate::holds_id(old(pool)@, x),
    ensures
        is_pool(table, u, final(pool)@),
        forall|x: u32| #[trigger]
            final(ids)@.contains(x) <==> candidate::holds_id(final(pool)@, x),
        forall|x: u32| #[trigger]
            candidate::holds_id(final(pool)@, x) <==> candidate::holds_id(old(pool)@, x) || x == id,
{
    broadcast use vstd::std_specs::hash::group_hash_axioms;

    let ghost before = pool@;
    if ids.insert(id) {
        let d: u32 = table.between(u, id);
        pool.push(Candidate { dist: d, id });
        proof {
            assert forall|x: u32| #[trigger]
                candidate::holds_id(pool@, x) <==> candidate::holds_id(before, x) || x == id by {
                if candidate::holds_id(before, x) {
                    let i = choose|i: int| 0 <= i < before.len() && (#[trigger] before[i]).id == x;
                    assert(pool@[i].id == x);
                }
                assert(pool@[before.len() as int].id == id);
                if candidate::holds_id(pool@, x) && x != id {
                    let i = choose|i: int| 0 <= i < pool@.len() && (#[trigger] pool@[i]).id == x;
                    assert(before[i].id == x);
                }
            }
            assert forall|i: int| 0 <= i < before.len() implies (#[trigger] before[i]).id != id by {
                assert(candidate::holds_id(before, before[i].id));
            }
        }
    } else {
        proof {
            assert(ids@ =~= old(ids)@);
            assert(candidate::holds_id(before, id));
        }
    }
}

/// What a search from each seed found, and the pool it makes with the present row.
pub open spec fn gathered<D: Distance>(
    space: &GraphSpace<D>,
    seeds: Seq<u32>,
    beam_width: int,
    found: Seq<Seq<Candidate>>,
    pool: Seq<Candidate>,
) -> bool {
    &&& found.len() == seeds.len()
    &&& forall|i: int|
        0 <= i < seeds.len() ==> greedy_finds(space, seeds[i], beam_width, #[trigger] found[i])
    &&& is_pool(space.table, space.query, pool)
    &&& forall|id: u32| #[trigger]
        candidate::holds_id(pool, id) <==> space.graph@[space.query as int]@.contains(id) || exists|
            i: int,
        |
            0 <= i < found.len() && candidate::holds_id(#[trigger] found[i], id)
}

/// The row proposed for a node: its present neighbours and what searches from the seeds
/// find, pruned.
pub open spec fn proposed<D: Distance>(
    space: &GraphSpace<D>,
    seeds: Seq<u32>,
    beam_width: int,
    max_degree: int,
    alpha: u32,
    row: Seq<u32>,
) -> bool {
    exists|found: Seq<Seq<Candidate>>, pool: Seq<Candidate>| #[trigger]
        gathered(space, seeds, beam_width, found, pool) && prune::pruned(
            space.table,
            space.query,
            pool,
            max_degree,
            alpha,
            row,
        )
}

/// Proposes a row for the space's query node.
#[verifier::rlimit(40)]
pub fn propose<D: Distance>(
    space: &GraphSpace<D>,
    seeds: &Vec<u32>,
    beam_width: usize,
    max_degree: usize,
    alpha: u32,
) -> (r: Vec<u32>)
    requires
        space.holds(space.query),
        forall|i: int| 0 <= i < seeds@.len() ==> space.holds(#[trigger] seeds@[i]),
    ensures
        proposed(space, seeds@, beam_width as int, max_degree as int, alpha, r@),
{
    broadcast use vstd::std_specs::hash::group_hash_axioms;

    let u: u32 = space.query;
    let ghost row = space.graph@[u as int]@;
    let mut pool: Vec<Candidate> = Vec::new();
    let mut ids: HashSet<u32> = HashSet::new();
    let links: Vec<u32> = space.neighbors(u);
    let mut i: usize = 0;
    while i < links.len()
        invariant
            i <= links@.len(),
            links@ == row,
            row == space.graph@[u as int]@,
            u == space.query,
            space.holds(u),
            is_pool(space.table, u, pool@),
            forall|x: u32| #[trigger] ids@.contains(x) <==> candidate::holds_id(pool@, x),
            forall|x: u32| #[trigger]
                candidate::holds_id(pool@, x) <==> row.take(i as int).contains(x),
        decreases links@.len() - i,
    {
        let id: u32 = links[i];
        assert(space.graph@[u as int]@[i as int] < space.table.vectors@.len());
        proof {
            let a = row.take(i as int);
            let b = row.take(i + 1);
            assert(b =~= a.push(id));
            assert forall|x: u32| #[trigger] b.contains(x) <==> a.contains(x) || x == id by {
                if a.contains(x) {
                    let m = choose|m: int| 0 <= m < a.len() && a[m] == x;
                    assert(b[m] == x);
                }
                assert(b[i as int] == id);
            }
        }
        pool_in(space.table, u, &mut pool, &mut ids, id);
        i = i + 1;
    }
    assert(row.take(row.len() as int) =~= row);
    let ghost mut found: Seq<Seq<Candidate>> = Seq::empty();
    let mut s: usize = 0;
    while s < seeds.len()
        invariant
            s <= seeds@.len(),
            row == space.graph@[u as int]@,
            u == space.query,
            space.holds(u),
            forall|i: int| 0 <= i < seeds@.len() ==> space.holds(#[trigger] seeds@[i]),
            found.len() == s,
            forall|i: int|
                0 <= i < s ==> greedy_finds(
                    space,
                    seeds@[i],
                    beam_width as int,
                    #[trigger] found[i],
                ),
            is_pool(space.table, u, pool@),
            forall|x: u32| #[trigger] ids@.contains(x) <==> candidate::holds_id(pool@, x),
            forall|x: u32| #[trigger]
                candidate::holds_id(pool@, x) <==> row.contains(x) || exists|i: int|
                    0 <= i < found.len() && candidate::holds_id(#[trigger] found[i], x),
        decreases seeds@.len() - s,
    {
        let part = greedy_search(space, seeds[s], beam_width);
        proof {
            lemma_greedy_sound(space, seeds@[s as int], beam_width as int, part@);
        }
        let ghost start = pool@;
        let mut j: usize = 0;
        while j < part.len()
            invariant
                j <= part@.len(),
                u == space.query,
                space.holds(u),
                forall|m: int| 0 <= m < part@.len() ==> space.holds((#[trigger] part@[m]).id),
                is_pool(space.table, u, pool@),
                forall|x: u32| #[trigger] ids@.contains(x) <==> candidate::holds_id(pool@, x),
                forall|x: u32| #[trigger]
                    candidate::holds_id(pool@, x) <==> candidate::holds_id(start, x)
                        || candidate::holds_id(part@.take(j as int), x),
            decreases part@.len() - j,
        {
            let id: u32 = part[j].id;
            proof {
                let a = part@.take(j as int);
                let b = part@.take(j + 1);
                assert forall|x: u32| #[trigger]
                    candidate::holds_id(b, x) <==> candidate::holds_id(a, x) || x == id by {
                    if candidate::holds_id(a, x) {
                        let m = choose|m: int| 0 <= m < a.len() && (#[trigger] a[m]).id == x;
                        assert(b[m].id == x);
                    }
                    assert(b[j as int].id == id);
                    if candidate::holds_id(b, x) && x != id {
                        let m = choose|m: int| 0 <= m < b.len() && (#[trigger] b[m]).id == x;
                        assert(a[m].id == x);
                    }
                }
            }
            pool_in(space.table, u, &mut pool, &mut ids, id);
            j = j + 1;
        }
        proof {
            assert(part@.take(part@.len() as int) =~= part@);
            let before = found;
            found = before.push(part@);
            assert forall|x: u32| #[trigger] candidate::holds_id(pool@, x) <==> row.contains(x)
                || exists|i: int|
                0 <= i < found.len() && candidate::holds_id(#[trigger] found[i], x) by {
                if exists|i: int| 0 <= i < before.len() && candidate::holds_id(
                    #[trigger] before[i],
                    x,
                ) {
                    let i = choose|i: int|
                        0 <= i < before.len() && candidate::holds_id(#[trigger] before[i], x);
                    assert(found[i] == before[i]);
                }
                if candidate::holds_id(part@, x) {
                    assert(found[s as int] == part@);
                }
                if exists|i: int| 0 <= i < found.len() && candidate::holds_id(
                    #[trigger] found[i],
                    x,
                ) {
                    let i = choose|i: int|
                        0 <= i < found.len() && candidate::holds_id(#[trigger] found[i], x);
                    if i < s {
                        assert(found[i] == before[i]);
                    }
                }
            }
            assert forall|i: int| 0 <= i < s + 1 implies greedy_finds(
                space,
                seeds@[i],
                beam_width as int,
                #[trigger] found[i],
            ) by {
                if i < s {
                    assert(found[i] == before[i]);
                }
            }
        }
        s = s + 1;
    }
    let r = prune_neighbors(space.table, u, &pool, max_degree, alpha);
    assert(gathered(space, seeds@, beam_width as int, found, pool@));
    r
}

/// What a construction search finds are nodes.
proof fn lemma_greedy_sound<D: Distance>(
    space: &GraphSpace<D>,
    start: u32,
    beam_width: int,
    r: Seq<Candidate>,
)
    requires
        space.holds(start),
        greedy_finds(space, start, beam_width, r),
    ensures
        forall|m: int| 0 <= m < r.len() ==> space.holds((#[trigger] r[m]).id),
{
    let t = choose|t: Trace| #[trigger] greedy_outcome(space, start, beam_width, t, r);
    assert(t.beam.to_multiset() =~= r.to_multiset());
    candidate::lemma_same_items(t.beam, r);
    assert forall|m: int| 0 <= m < r.len() implies space.holds((#[trigger] r[m]).id) by {
        assert(r.contains(r[m]));
        assert(t.beam.contains(r[m]));
        let j = choose|j: int| 0 <= j < t.beam.len() && t.beam[j] == r[m];
        assert(t.seen.contains(t.beam[j].id));
        beam::seen_is_reachable(space, seq![start], beam_width, t, r[m].id);
        beam::reachable_is_held(space, seq![start], r[m].id);
    }
}

/// The edges that meet at `u`: a row joined with the sources of the edges into it.
pub open spec fn meets(rows: Seq<Seq<u32>>, u: u32, id: u32) -> bool {
    id != u && (rows[u as int].contains(id) || (id < rows.len() && rows[id as int].contains(u)))
}

/// The row of `u` after edges were made to run both ways and pruned again.
pub open spec fn joined<D: Distance>(
    table: &Table<D>,
    rows: Seq<Seq<u32>>,
    u: u32,
    max_degree: int,
    alpha: u32,
    row: Seq<u32>,
) -> bool {
    exists|pool: Seq<Candidate>| #[trigger]
        is_pool(table, u, pool) && (forall|id: u32| #[trigger]
            candidate::holds_id(pool, id) <==> meets(rows, u, id)) && prune::pruned(
            table,
            u,
            pool,
            max_degree,
            alpha,
            row,
        )
}

/// Node `u` searching a graph over a table.
pub open spec fn space_of<'a, D: Distance>(
    table: &'a Table<'a, D>,
    graph: &'a Vec<Vec<u32>>,
    u: int,
) -> GraphSpace<'a, D> {
    GraphSpace { table, graph, query: u as u32 }
}

/// One refinement of a graph: a row is proposed for every node, and then the proposals
/// are joined with their reverse edges and pruned.
pub open spec fn refined<D: Distance>(
    table: &Table<D>,
    graph: &Vec<Vec<u32>>,
    seeds: Seq<Vec<u32>>,
    beam_width: int,
    max_degree: int,
    alpha: u32,
    proposals: Seq<Seq<u32>>,
    out: Seq<Vec<u32>>,
) -> bool {
    let n = table.vectors@.len();
    &&& proposals.len() == n
    &&& out.len() == n
    &&& forall|u: int|
        0 <= u < n ==> proposed(
            &space_of(table, graph, u),
            seeds[u]@,
            beam_width,
            max_degree,
            alpha,
            #[trigger] proposals[u],
        )
    &&& forall|u: int|
        0 <= u < n ==> joined(
            table,
            proposals,
            u as u32,
            max_degree,
            alpha,
            (#[trigger] out[u])@,
        )
}

/// A row that pruning returned holds at most `max_degree` nodes, no node twice, and not
/// the node itself.
pub open spec fn valid_row(row: Seq<u32>, u: int, n: int, max_degree: int) -> bool {
    &&& row.len() <= max_degree
    &&& row.no_duplicates()
    &&& forall|i: int| 0 <= i < row.len() ==> #[trigger] row[i] < n && row[i] != u
}

proof fn lemma_pruned_row<D: Distance>(
    table: &Table<D>,
    u: u32,
    pool: Seq<Candidate>,
    max_degree: int,
    alpha: u32,
    row: Seq<u32>,
)
    requires
        0 <= max_degree,
        is_pool(table, u, pool),
        prune::pruned(table, u, pool, max_degree, alpha, row),
    ensures
        valid_row(row, u as int, table.vectors@.len() as int, max_degree),
{
    prune::pruning_is_sound(table, u, pool, max_degree, alpha, row);
    assert forall|i: int| 0 <= i < row.len() implies #[trigger] row[i] < table.vectors@.len()
        && row[i] != u by {
        assert(candidate::holds_id(pool, row[i]));
        let j = choose|j: int| 0 <= j < pool.len() && (#[trigger] pool[j]).id == row[i];
        assert(table.has(pool[j].id));
    }
}

proof fn lemma_proposed_row<D: Distance>(
    space: &GraphSpace<D>,
    seeds: Seq<u32>,
    beam_width: int,
    max_degree: int,
    alpha: u32,
    row: Seq<u32>,
)
    requires
        0 <= max_degree,
        proposed(space, seeds, beam_width, max_degree, alpha, row),
    ensures
        valid_row(row, space.query as int, space.table.vectors@.len() as int, max_degree),
{
    let (found, pool) = choose|found: Seq<Seq<Candidate>>, pool: Seq<Candidate>| #[trigger]
        gathered(space, seeds, beam_width, found, pool) && prune::pruned(
            space.table,
            space.query,
            pool,
            max_degree,
            alpha,
            row,
        );
    lemma_pruned_row(space.table, space.query, pool, max_degree, alpha, row);
}

proof fn lemma_joined_row<D: Distance>(
    table: &Table<D>,
    rows: Seq<Seq<u32>>,
    u: u32,
    max_degree: int,
    alpha: u32,
    row: Seq<u32>,
)
    requires
        0 <= max_degree,
        joined(table, rows, u, max_degree, alpha, row),
    ensures
        valid_row(row, u as int, table.vectors@.len() as int, max_degree),
{
    let pool = choose|pool: Seq<Candidate>| #[trigger]
        is_pool(table, u, pool) && (forall|id: u32| #[trigger]
            candidate::holds_id(pool, id) <==> meets(rows, u, id)) && prune::pruned(
            table,
            u,
            pool,
            max_degree,
            alpha,
            row,
        );
    lemma_pruned_row(table, u, pool, max_degree, alpha, row);
}

/// Every position below `n`, once.
pub open spec fn is_permutation(order: Seq<usize>, n: int) -> bool {
    &&& order.len() == n
    &&& order.no_duplicates()
    &&& forall|p: int| 0 <= p < order.len() ==> #[trigger] order[p] < n
}

/// A permutation leaves nothing out.
proof fn lemma_permutation_covers(order: Seq<usize>, n: int, u: int)
    requires
        is_permutation(order, n),
        0 <= u < n,
    ensures
        exists|p: int| 0 <= p < n && #[trigger] order[p] == u,
{
    let t = order.map_values(|x: usize| x as int);
    assert(t.no_duplicates()) by {
        assert forall|i: int, j: int| 0 <= i < t.len() && 0 <= j < t.len() && i != j implies t[i]
            != t[j] by {
            assert(order[i] != order[j]);
        }
    }
    let range = vstd::set_lib::set_int_range(0, n);
    vstd::set_lib::lemma_int_range(0, n);
    t.unique_seq_to_set();
    assert(t.to_set().subset_of(range)) by {
        assert forall|x: int| t.to_set().contains(x) implies range.contains(x) by {
            let i = choose|i: int| 0 <= i < t.len() && t[i] == x;
            assert(order[i] < n);
        }
    }
    vstd::set_lib::lemma_subset_equality(t.to_set(), range);
    assert(t.to_set().contains(u));
    let p = choose|p: int| 0 <= p < t.len() && t[p] == u;
    assert(order[p] == u);
}

/// Where each position stands in a permutation.
fn invert(order: &Vec<usize>) -> (pos_of: Vec<usize>)
    requires
        is_permutation(order@, order@.len() as int),
    ensures
        is_inverse(order@, pos_of@),
{
    let n: usize = order.len();
    let mut pos_of: Vec<usize> = Vec::new();
    let mut i: usize = 0;
    while i < n
        invariant
            i <= n,
            pos_of@.len() == i,
            forall|u: int| 0 <= u < i ==> #[trigger] pos_of@[u] == 0,
        decreases n - i,
    {
        pos_of.push(0);
        i = i + 1;
    }
    let mut pos: usize = 0;
    while pos < n
        invariant
            pos <= n == order@.len(),
            pos_of@.len() == n,
            is_permutation(order@, n as int),
            forall|p: int| 0 <= p < pos ==> pos_of@[(#[trigger] order@[p]) as int] == p,
            forall|u: int| 0 <= u < n ==> #[trigger] pos_of@[u] < n,
        decreases n - pos,
    {
        let u: usize = order[pos];
        assert(order@[pos as int] < n);
        pos_of.set(u, pos);
        pos = pos + 1;
    }
    proof {
        assert forall|u: int| 0 <= u < n implies order@[#[trigger] pos_of@[u] as int] == u by {
            lemma_permutation_covers(order@, n as int, u);
            let p = choose|p: int| 0 <= p < n && #[trigger] order@[p] == u;
            assert(pos_of@[order@[p] as int] == p);
        }
    }
    pos_of
}

/// `pos_of` gives the place of each position in `order`.
pub open spec fn is_inverse(order: Seq<usize>, pos_of: Seq<usize>) -> bool {
    &&& pos_of.len() == order.len()
    &&& forall|u: int|
        0 <= u < pos_of.len() ==> #[trigger] pos_of[u] < order.len() && order[pos_of[u] as int] == u
}

fn propose_all<D: Distance>(
    table: &Table<D>,
    graph: &Vec<Vec<u32>>,
    order: &Vec<usize>,
    seeds: &Vec<Vec<u32>>,
    beam_width: usize,
    max_degree: usize,
    alpha: u32,
) -> (new_graph: Vec<Vec<u32>>)
    requires
        table.wf(),
        table.vectors@.len() < u32::MAX,
        valid_graph(graph@, table.vectors@.len() as int),
        is_permutation(order@, table.vectors@.len() as int),
        seeds@.len() == table.vectors@.len(),
        forall|u: int, i: int|
            0 <= u < seeds@.len() && 0 <= i < seeds@[u]@.len() ==> #[trigger] seeds@[u]@[i]
                < table.vectors@.len(),
    ensures
        new_graph@.len() == table.vectors@.len(),
        forall|p: int|
            0 <= p < new_graph@.len() ==> proposed(
                &space_of(table, graph, order@[p] as int),
                seeds@[order@[p] as int]@,
                beam_width as int,
                max_degree as int,
                alpha,
                (#[trigger] new_graph@[p])@,
            ),
{
    let n: usize = table.vectors.len();
    let mut new_graph: Vec<Vec<u32>> = Vec::new();
    let mut pos: usize = 0;
    while pos < n
        invariant
            n == table.vectors@.len(),
            n < u32::MAX,
            pos <= n,
            table.wf(),
            valid_graph(graph@, n as int),
            is_permutation(order@, n as int),
            seeds@.len() == n,
            forall|u: int, i: int|
                0 <= u < seeds@.len() && 0 <= i < seeds@[u]@.len() ==> #[trigger] seeds@[u]@[i] < n,
            new_graph@.len() == pos,
            forall|p: int|
                0 <= p < pos ==> proposed(
                    &space_of(table, graph, order@[p] as int),
                    seeds@[order@[p] as int]@,
                    beam_width as int,
                    max_degree as int,
                    alpha,
                    (#[trigger] new_graph@[p])@,
                ),
        decreases n - pos,
    {
        let u: usize = order[pos];
        assert(order@[pos as int] < n);
        let space = GraphSpace { table, graph, query: u as u32 };
        assert(space == space_of(table, graph, u as int));
        let row = propose(&space, &seeds[u], beam_width, max_degree, alpha);
        new_graph.push(row);
        pos = pos + 1;
    }
    new_graph
}

/// Proposed rows, by node.
spec fn by_node(new_graph: Seq<Vec<u32>>, pos_of: Seq<usize>) -> Seq<Seq<u32>> {
    Seq::new(pos_of.len(), |u: int| new_graph[pos_of[u] as int]@)
}

fn join_all<D: Distance>(
    table: &Table<D>,
    order: &Vec<usize>,
    new_graph: &Vec<Vec<u32>>,
    pos_of: &Vec<usize>,
    max_degree: usize,
    alpha: u32,
) -> (out: Vec<Vec<u32>>)
    requires
        table.wf(),
        table.vectors@.len() < u32::MAX,
        is_permutation(order@, table.vectors@.len() as int),
        is_inverse(order@, pos_of@),
        valid_graph(new_graph@, table.vectors@.len() as int),
        csr::edges(new_graph@, new_graph@.len() as int) <= usize::MAX,
    ensures
        out@.len() == table.vectors@.len(),
        forall|u: int|
            0 <= u < out@.len() ==> joined(
                table,
                by_node(new_graph@, pos_of@),
                u as u32,
                max_degree as int,
                alpha,
                (#[trigger] out@[u])@,
            ),
{
    let n: usize = table.vectors.len();
    let (flat, off) = build_incoming_csr(order, new_graph, n);
    let mut out: Vec<Vec<u32>> = Vec::new();
    let mut u: usize = 0;
    while u < n
        invariant
            n == table.vectors@.len(),
            n < u32::MAX,
            u <= n,
            table.wf(),
            is_permutation(order@, n as int),
            is_inverse(order@, pos_of@),
            valid_graph(new_graph@, n as int),
            off@.len() == n + 1,
            forall|v: int| 0 <= v < n ==> #[trigger] off@[v] <= off@[v + 1] <= flat@.len(),
            forall|v: int|
                0 <= v < n ==> flat@.subrange(#[trigger] off@[v] as int, off@[v + 1] as int)
                    == csr::incoming(order@, new_graph@, v, n as int),
            out@.len() == u,
            forall|w: int|
                0 <= w < u ==> joined(
                    table,
                    by_node(new_graph@, pos_of@),
                    w as u32,
                    max_degree as int,
                    alpha,
                    (#[trigger] out@[w])@,
                ),
        decreases n - u,
    {
        assert(pos_of@[u as int] < n);
        let from: usize = off[u];
        let to: usize = off[u + 1];
        let row = join_row(
            table,
            u as u32,
            &new_graph[pos_of[u]],
            vstd::slice::slice_subrange(flat.as_slice(), from, to),
            max_degree,
            alpha,
            Ghost(order@),
            Ghost(new_graph@),
            Ghost(pos_of@),
        );
        out.push(row);
        u = u + 1;
    }
    out
}

/// Refines a graph once. Nodes are visited in the given order, and the searches for
/// node `u` start at `seeds[u]`.
pub fn refine<D: Distance>(
    table: &Table<D>,
    graph: &Vec<Vec<u32>>,
    order: &Vec<usize>,
    seeds: &Vec<Vec<u32>>,
    beam_width: usize,
    max_degree: usize,
    alpha: u32,
) -> (out: Vec<Vec<u32>>)
    requires
        table.wf(),
        table.vectors@.len() < u32::MAX,
        table.vectors@.len() * max_degree <= usize::MAX,
        valid_graph(graph@, table.vectors@.len() as int),
        is_permutation(order@, table.vectors@.len() as int),
        seeds@.len() == table.vectors@.len(),
        forall|u: int, i: int|
            0 <= u < seeds@.len() && 0 <= i < seeds@[u]@.len() ==> #[trigger] seeds@[u]@[i]
                < table.vectors@.len(),
    ensures
        exists|proposals: Seq<Seq<u32>>| #[trigger]
            refined(
                table,
                graph,
                seeds@,
                beam_width as int,
                max_degree as int,
                alpha,
                proposals,
                out@,
            ),
        valid_rows(out@, table.vectors@.len() as int, max_degree as int),
{
    let new_graph = propose_all(table, graph, order, seeds, beam_width, max_degree, alpha);
    let pos_of = invert(order);
    let ghost n = table.vectors@.len() as int;
    let ghost proposals = by_node(new_graph@, pos_of@);
    proof {
        assert forall|p: int| 0 <= p < n implies (#[trigger] new_graph@[p])@.len() <= max_degree
            && valid_row(new_graph@[p]@, order@[p] as int, n, max_degree as int) by {
            assert(order@[p] < n);
            lemma_proposed_row(
                &space_of(table, graph, order@[p] as int),
                seeds@[order@[p] as int]@,
                beam_width as int,
                max_degree as int,
                alpha,
                new_graph@[p]@,
            );
        }
        csr::lemma_edges_bound(new_graph@, n, max_degree as int);
        assert forall|u: int, i: int| 0 <= u < n && 0 <= i < new_graph@[u]@.len() implies
            #[trigger] new_graph@[u]@[i] < n by {
            assert(valid_row(new_graph@[u]@, order@[u] as int, n, max_degree as int));
        }
        assert forall|u: int| 0 <= u < n implies proposed(
            &space_of(table, graph, u),
            seeds@[u]@,
            beam_width as int,
            max_degree as int,
            alpha,
            #[trigger] proposals[u],
        ) by {
            let p = pos_of@[u] as int;
            assert(order@[p] == u);
            assert(new_graph@[p]@ == proposals[u]);
        }
    }
    let out = join_all(table, order, &new_graph, &pos_of, max_degree, alpha);
    proof {
        assert(refined(
            table,
            graph,
            seeds@,
            beam_width as int,
            max_degree as int,
            alpha,
            proposals,
            out@,
        ));
        assert forall|w: int| 0 <= w < n implies valid_row(
            (#[trigger] out@[w])@,
            w,
            n as int,
            max_degree as int,
        ) by {
            lemma_joined_row(table, proposals, w as u32, max_degree as int, alpha, out@[w]@);
        }
    }
    out
}

/// A graph whose every row is valid.
pub open spec fn valid_rows(graph: Seq<Vec<u32>>, n: int, max_degree: int) -> bool {
    &&& graph.len() == n
    &&& forall|u: int|
        0 <= u < graph.len() ==> valid_row((#[trigger] graph[u])@, u, n, max_degree)
}

/// Adds all ids but `u` itself to a pool.
fn pool_others<D: Distance>(
    table: &Table<D>,
    u: u32,
    pool: &mut Vec<Candidate>,
    ids: &mut HashSet<u32>,
    items: &[u32],
)
    requires
        table.has(u),
        forall|x: u32| #[trigger] items@.contains(x) ==> table.has(x),
        is_pool(table, u, old(pool)@),
        forall|x: u32| #[trigger]
            old(ids)@.contains(x) <==> candidate::holds_id(old(pool)@, x),
    ensures
        is_pool(table, u, final(pool)@),
        forall|x: u32| #[trigger]
            final(ids)@.contains(x) <==> candidate::holds_id(final(pool)@, x),
        forall|x: u32| #[trigger]
            candidate::holds_id(final(pool)@, x) <==> candidate::holds_id(old(pool)@, x) || (x != u
                && items@.contains(x)),
{
    let ghost start = pool@;
    let mut i: usize = 0;
    while i < items.len()
        invariant
            i <= items@.len(),
            table.has(u),
            forall|x: u32| #[trigger] items@.contains(x) ==> table.has(x),
            is_pool(table, u, pool@),
            forall|x: u32| #[trigger] ids@.contains(x) <==> candidate::holds_id(pool@, x),
            forall|x: u32| #[trigger]
                candidate::holds_id(pool@, x) <==> candidate::holds_id(start, x) || (x != u
                    && items@.take(i as int).contains(x)),
        decreases items@.len() - i,
    {
        let id: u32 = items[i];
        proof {
            assert(items@.contains(items@[i as int]));
            let a = items@.take(i as int);
            let b = items@.take(i + 1);
            assert(b =~= a.push(id));
            assert forall|x: u32| #[trigger] b.contains(x) <==> a.contains(x) || x == id by {
                if a.contains(x) {
                    let m = choose|m: int| 0 <= m < a.len() && a[m] == x;
                    assert(b[m] == x);
                }
                assert(b[i as int] == id);
            }
        }
        if id != u {
            pool_in(table, u, pool, ids, id);
        }
        i = i + 1;
    }
    assert(items@.take(items@.len() as int) =~= items@);
}

fn join_row<D: Distance>(
    table: &Table<D>,
    u: u32,
    outgoing: &Vec<u32>,
    sources: &[u32],
    max_degree: usize,
    alpha: u32,
    Ghost(order): Ghost<Seq<usize>>,
    Ghost(new_graph): Ghost<Seq<Vec<u32>>>,
    Ghost(pos_of): Ghost<Seq<usize>>,
) -> (row: Vec<u32>)
    requires
        table.wf(),
        table.vectors@.len() < u32::MAX,
        u < table.vectors@.len(),
        ({
            let n = table.vectors@.len() as int;
            &&& is_permutation(order, n)
            &&& is_inverse(order, pos_of)
            &&& valid_graph(new_graph, n)
            &&& outgoing@ == new_graph[pos_of[u as int] as int]@
            &&& sources@ == csr::incoming(order, new_graph, u as int, n)
        }),
    ensures
        joined(
            table,
            by_node(new_graph, pos_of),
            u,
            max_degree as int,
            alpha,
            row@,
        ),
{
    broadcast use vstd::std_specs::hash::group_hash_axioms;

    let ghost n = table.vectors@.len() as int;
    let ghost rows = by_node(new_graph, pos_of);
    let mut pool: Vec<Candidate> = Vec::new();
    let mut ids: HashSet<u32> = HashSet::new();
    proof {
        assert forall|x: u32| #[trigger] sources@.contains(x) implies x < n && rows[x as int].contains(u) by {
            csr::lemma_incoming_contains(order, new_graph, u as int, n, x);
            let (p, i) = choose|p: int, i: int|
                0 <= p < n && 0 <= i < new_graph[p]@.len() && order[p] as u32 == x
                    && #[trigger] new_graph[p]@[i] == u;
            assert(order[p] < n);
            assert(order[pos_of[x as int] as int] == x);
            assert(pos_of[x as int] == p);
            assert(rows[x as int] == new_graph[p]@);
        }
        assert forall|x: u32| x < n && #[trigger] rows[x as int].contains(u) implies sources@.contains(x) by {
            let p = pos_of[x as int] as int;
            assert(order[p] == x);
            let i = choose|i: int| 0 <= i < rows[x as int].len() && rows[x as int][i] == u;
            assert(new_graph[p]@[i] == u);
            csr::lemma_incoming_contains(order, new_graph, u as int, n, x);
        }
    }
    proof {
        assert forall|x: u32| #[trigger] outgoing@.contains(x) implies x < n by {
            let i = choose|i: int| 0 <= i < outgoing@.len() && outgoing@[i] == x;
            assert(new_graph[pos_of[u as int] as int]@[i] < n);
        }
    }
    pool_others(table, u, &mut pool, &mut ids, outgoing.as_slice());
    pool_others(table, u, &mut pool, &mut ids, sources);
    proof {
        assert(rows[u as int] == outgoing@);
        assert forall|id: u32| #[trigger] candidate::holds_id(pool@, id) <==> meets(rows, u, id) by {
            if id < n && rows[id as int].contains(u) {
                assert(sources@.contains(id));
            }
        }
        assert(is_pool(table, u, pool@));
    }
    robust_prune(table, u, &pool, max_degree, alpha)
}

/// How many random neighbours a node starts with: half the degree, at least two, and no
/// more than there are other nodes.
pub open spec fn bootstrap_degree(max_degree: int, n: int) -> int {
    let half = if max_degree / 2 >= 2 {
        max_degree / 2
    } else {
        2
    };
    if half <= n - 1 {
        half
    } else if n > 0 {
        n - 1
    } else {
        0
    }
}

/// Random distinct neighbours for node `u`.
fn random_row(u: u32, n: usize, target: usize) -> (row: Vec<u32>)
    requires
        u < n < u32::MAX,
        target <= n - 1,
    ensures
        row@.len() == target,
        valid_row(row@, u as int, n as int, target as int),
{
    broadcast use vstd::std_specs::hash::group_hash_axioms;

    let mut ids: HashSet<u32> = HashSet::new();
    let mut row: Vec<u32> = Vec::new();
    // Draws are not bound to hit a fresh node, so they are counted; what they leave
    // open is filled up in order.
    let mut draws: u64 = u64::MAX;
    while row.len() < target && draws > 0
        invariant
            u < n < u32::MAX,
            row@.len() <= target,
            valid_row(row@, u as int, n as int, target as int),
            forall|x: u32| #[trigger] ids@.contains(x) <==> row@.contains(x),
        decreases draws,
    {
        broadcast use vstd::std_specs::hash::group_hash_axioms;

        draws = draws - 1;
        let nb: u32 = random_below(n) as u32;
        if nb != u {
            let ghost before = row@;
            if ids.insert(nb) {
                row.push(nb);
                proof {
                    lemma_push_new(before, nb);
                }
            } else {
                assert(before.contains(nb));
                assert(ids@ =~= ids@.insert(nb));
            }
        }
    }
    let mut nb: u32 = 0;
    while row.len() < target && (nb as usize) < n
        invariant
            u < n < u32::MAX,
            nb <= n,
            target <= n - 1,
            row@.len() <= target,
            valid_row(row@, u as int, n as int, target as int),
            forall|x: u32| #[trigger] ids@.contains(x) <==> row@.contains(x),
            forall|x: u32| x < nb && x != u ==> #[trigger] row@.contains(x),
        decreases n - nb,
    {
        broadcast use vstd::std_specs::hash::group_hash_axioms;

        if nb != u {
            let ghost before = row@;
            if ids.insert(nb) {
                row.push(nb);
                proof {
                    lemma_push_new(before, nb);
                }
            } else {
                assert(before.contains(nb));
                assert(ids@ =~= ids@.insert(nb));
            }
        }
        nb = nb + 1;
    }
    proof {
        if row@.len() < target {
            lemma_row_is_full(row@, u, n as int);
        }
    }
    row
}

proof fn lemma_push_new(row: Seq<u32>, nb: u32)
    ensures
        forall|x: u32| #[trigger] row.push(nb).contains(x) <==> row.contains(x) || x == nb,
        row.no_duplicates() && !row.contains(nb) ==> row.push(nb).no_duplicates(),
{
    let more = row.push(nb);
    assert forall|x: u32| #[trigger] more.contains(x) <==> row.contains(x) || x == nb by {
        if row.contains(x) {
            let i = choose|i: int| 0 <= i < row.len() && row[i] == x;
            assert(more[i] == x);
        }
        assert(more[row.len() as int] == nb);
    }
}

/// A row that holds every node but its own has one entry less than there are nodes.
proof fn lemma_row_is_full(row: Seq<u32>, u: u32, n: int)
    requires
        u < n <= u32::MAX,
        row.no_duplicates(),
        forall|x: u32| x < n && x != u ==> #[trigger] row.contains(x),
    ensures
        row.len() >= n - 1,
{
    let t = row.map_values(|x: u32| x as int);
    let range = vstd::set_lib::set_int_range(0, n).remove(u as int);
    vstd::set_lib::lemma_int_range(0, n);
    assert(t.no_duplicates()) by {
        assert forall|i: int, j: int| 0 <= i < t.len() && 0 <= j < t.len() && i != j implies t[i]
            != t[j] by {
            assert(row[i] != row[j]);
        }
    }
    t.unique_seq_to_set();
    assert(range.subset_of(t.to_set())) by {
        assert forall|x: int| range.contains(x) implies t.to_set().contains(x) by {
            assert(row.contains(x as u32));
            let i = choose|i: int| 0 <= i < row.len() && row[i] == x as u32;
            assert(t[i] == x);
        }
    }
    vstd::set_lib::lemma_len_subset(range, t.to_set());
}

/// A graph of random rows to start from.
fn bootstrap(n: usize, max_degree: usize) -> (graph: Vec<Vec<u32>>)
    requires
        0 < n < u32::MAX,
    ensures
        valid_rows(graph@, n as int, bootstrap_degree(max_degree as int, n as int)),
        forall|u: int|
            0 <= u < n ==> (#[trigger] graph@[u])@.len() == bootstrap_degree(
                max_degree as int,
                n as int,
            ),
{
    let half: usize = if max_degree / 2 >= 2 {
        max_degree / 2
    } else {
        2
    };
    let target: usize = if half <= n - 1 {
        half
    } else {
        n - 1
    };
    let mut graph: Vec<Vec<u32>> = Vec::new();
    let mut u: usize = 0;
    while u < n
        invariant
            u <= n < u32::MAX,
            target <= n - 1,
            graph@.len() == u,
            forall|w: int|
                0 <= w < u ==> valid_row((#[trigger] graph@[w])@, w, n as int, target as int)
                    && graph@[w]@.len() == target,
        decreases n - u,
    {
        graph.push(random_row(u as u32, n, target));
        u = u + 1;
    }
    graph
}

/// The positions below `n` in some order.
fn random_order(n: usize) -> (order: Vec<usize>)
    ensures
        is_permutation(order@, n as int),
{
    let mut order: Vec<usize> = Vec::new();
    let mut i: usize = 0;
    while i < n
        invariant
            i <= n,
            order@.len() == i,
            forall|p: int| 0 <= p < i ==> #[trigger] order@[p] == p,
        decreases n - i,
    {
        order.push(i);
        i = i + 1;
    }
    let ghost start = order@;
    shuffle(&mut order);
    proof {
        broadcast use vstd::seq_lib::group_to_multiset_ensures;

        assert(order@.len() == order@.to_multiset().len());
        assert(start.len() == start.to_multiset().len());
        assert(start.no_duplicates());
        start.lemma_multiset_has_no_duplicates();
        order@.lemma_multiset_has_no_duplicates_conv();
        assert forall|p: int| 0 <= p < order@.len() implies #[trigger] order@[p] < n by {
            assert(order@.contains(order@[p]));
            assert(order@.to_multiset().count(order@[p]) > 0);
            assert(start.to_multiset().count(order@[p]) > 0);
            assert(start.contains(order@[p]));
        }
    }
    order
}

/// For each node the medoid and random nodes, to start searches at.
fn random_seeds(n: usize, medoid: u32) -> (seeds: Vec<Vec<u32>>)
    requires
        medoid < n < u32::MAX,
    ensures
        seeds@.len() == n,
        forall|u: int|
            0 <= u < n ==> (#[trigger] seeds@[u])@.len() == 1 + EXTRA_SEEDS && seeds@[u]@[0]
                == medoid,
        forall|u: int, i: int|
            0 <= u < n && 0 <= i < seeds@[u]@.len() ==> #[trigger] seeds@[u]@[i] < n,
{
    let mut seeds: Vec<Vec<u32>> = Vec::new();
    let mut u: usize = 0;
    while u < n
        invariant
            u <= n,
            medoid < n < u32::MAX,
            seeds@.len() == u,
            forall|w: int|
                0 <= w < u ==> (#[trigger] seeds@[w])@.len() == 1 + EXTRA_SEEDS && seeds@[w]@[0]
                    == medoid,
            forall|w: int, i: int|
                0 <= w < u && 0 <= i < seeds@[w]@.len() ==> #[trigger] seeds@[w]@[i] < n,
        decreases n - u,
    {
        let mut row: Vec<u32> = Vec::new();
        row.push(medoid);
        let mut extra: usize = 0;
        while extra < EXTRA_SEEDS
            invariant
                extra <= EXTRA_SEEDS,
                medoid < n < u32::MAX,
                row@.len() == 1 + extra,
                row@[0] == medoid,
                forall|i: int| 0 <= i < row@.len() ==> #[trigger] row@[i] < n,
            decreases EXTRA_SEEDS - extra,
        {
            row.push(random_below(n) as u32);
            extra = extra + 1;
        }
        seeds.push(row);
        u = u + 1;
    }
    seeds
}

/// Each node's searches start at the medoid and at `EXTRA_SEEDS` more nodes.
pub open spec fn are_seeds(seeds: Seq<Vec<u32>>, n: int, medoid: u32) -> bool {
    &&& seeds.len() == n
    &&& forall|u: int|
        0 <= u < n ==> (#[trigger] seeds[u])@.len() == 1 + EXTRA_SEEDS && seeds[u]@[0] == medoid
    &&& forall|u: int, i: int|
        0 <= u < n && 0 <= i < seeds[u]@.len() ==> #[trigger] seeds[u]@[i] < n
}

/// The graph is a refinement of a valid graph.
pub open spec fn is_refinement<D: Distance>(
    table: &Table<D>,
    before: &Vec<Vec<u32>>,
    seeds: Seq<Vec<u32>>,
    beam_width: int,
    max_degree: int,
    alpha: u32,
    medoid: u32,
    proposals: Seq<Seq<u32>>,
    graph: Seq<Vec<u32>>,
) -> bool {
    let n = table.vectors@.len() as int;
    &&& valid_graph(before@, n)
    &&& are_seeds(seeds, n, medoid)
    &&& refined(table, before, seeds, beam_width, max_degree, alpha, proposals, graph)
}

/// The graph `after` is a refinement of the graph `before`.
pub open spec fn follows<D: Distance>(
    table: &Table<D>,
    before: &Vec<Vec<u32>>,
    beam_width: int,
    max_degree: int,
    alpha: u32,
    medoid: u32,
    after: &Vec<Vec<u32>>,
) -> bool {
    exists|seeds: Seq<Vec<u32>>, proposals: Seq<Seq<u32>>| #[trigger]
        is_refinement(
            table,
            before,
            seeds,
            beam_width,
            max_degree,
            alpha,
            medoid,
            proposals,
            after@,
        )
}

/// Rows to start from: for each node, as many others as it starts with.
pub open spec fn is_bootstrap(graph: Seq<Vec<u32>>, n: int, max_degree: int) -> bool {
    &&& valid_rows(graph, n, bootstrap_degree(max_degree, n))
    &&& forall|u: int|
        0 <= u < n ==> (#[trigger] graph[u])@.len() == bootstrap_degree(max_degree, n)
}

/// Graphs that begin with rows to start from, each next a refinement of the one before.
pub open spec fn are_passes<D: Distance>(
    table: &Table<D>,
    beam_width: int,
    max_degree: int,
    alpha: u32,
    medoid: u32,
    graphs: Seq<Vec<Vec<u32>>>,
) -> bool {
    &&& graphs.len() > 0
    &&& is_bootstrap(graphs[0]@, table.vectors@.len() as int, max_degree)
    &&& forall|p: int, q: int|
        0 <= p && q == p + 1 && q < graphs.len() ==> #[trigger] follows(
            table,
            &graphs[p],
            beam_width,
            max_degree,
            alpha,
            medoid,
            &graphs[q],
        )
}

/// The graph is what `PASSES` refinements make of rows to start from.
pub open spec fn is_vamana<D: Distance>(
    table: &Table<D>,
    beam_width: int,
    max_degree: int,
    alpha: u32,
    medoid: u32,
    graph: Seq<Vec<u32>>,
) -> bool {
    exists|graphs: Seq<Vec<Vec<u32>>>| #[trigger]
        are_passes(table, beam_width, max_degree, alpha, medoid, graphs) && graphs.len() == PASSES
            + 1 && graphs.last()@ == graph
}

/// Builds the graph of a table: random rows, refined `PASSES` times.
#[verifier::rlimit(40)]
pub fn build_vamana_graph<D: Distance>(
    table: &Table<D>,
    max_degree: usize,
    build_beam_width: usize,
    alpha: u32,
    medoid_id: u32,
) -> (graph: Vec<Vec<u32>>)
    requires
        table.wf(),
        table.vectors@.len() < u32::MAX,
        table.vectors@.len() * max_degree <= usize::MAX,
        medoid_id < table.vectors@.len(),
    ensures
        valid_rows(graph@, table.vectors@.len() as int, max_degree as int),
        is_vamana(
            table,
            build_beam_width as int,
            max_degree as int,
            alpha,
            medoid_id,
            graph@,
        ),
{
    let n: usize = table.vectors.len();
    let mut graph = bootstrap(n, max_degree);
    let ghost most = bootstrap_degree(max_degree as int, n as int);
    let ghost mut graphs: Seq<Vec<Vec<u32>>> = seq![graph];
    let mut done: usize = 0;
    proof {
        lemma_rows_are_graph(graph@, n as int, most);
    }
    while done < PASSES
        invariant
            done <= PASSES,
            n == table.vectors@.len(),
            table.wf(),
            n < u32::MAX,
            n * max_degree <= usize::MAX,
            medoid_id < n,
            valid_graph(graph@, n as int),
            done > 0 ==> valid_rows(graph@, n as int, max_degree as int),
            are_passes(
                table,
                build_beam_width as int,
                max_degree as int,
                alpha,
                medoid_id,
                graphs,
            ),
            graphs.len() == done + 1,
            graphs.last() == graph,
        decreases PASSES - done,
    {
        let order = random_order(n);
        let seeds = random_seeds(n, medoid_id);
        let next = refine(table, &graph, &order, &seeds, build_beam_width, max_degree, alpha);
        proof {
            let proposals = choose|proposals: Seq<Seq<u32>>| #[trigger]
                refined(
                    table,
                    &graph,
                    seeds@,
                    build_beam_width as int,
                    max_degree as int,
                    alpha,
                    proposals,
                    next@,
                );
            assert(is_refinement(
                table,
                &graph,
                seeds@,
                build_beam_width as int,
                max_degree as int,
                alpha,
                medoid_id,
                proposals,
                next@,
            ));
            lemma_rows_are_graph(next@, n as int, max_degree as int);
            let more = graphs.push(next);
            assert forall|p: int, q: int| 0 <= p && q == p + 1 && q < more.len() implies #[trigger] follows(
                table,
                &more[p],
                build_beam_width as int,
                max_degree as int,
                alpha,
                medoid_id,
                &more[q],
            ) by {
                if q < graphs.len() {
                    assert(follows(
                        table,
                        &graphs[p],
                        build_beam_width as int,
                        max_degree as int,
                        alpha,
                        medoid_id,
                        &graphs[q],
                    ));
                } else {
                    assert(more[p] == graph);
                }
            }
            graphs = more;
        }
        graph = next;
        done = done + 1;
    }
    graph
}

pub proof fn lemma_rows_are_graph(graph: Seq<Vec<u32>>, n: int, max_degree: int)
    requires
        valid_rows(graph, n, max_degree),
    ensures
        valid_graph(graph, n),
{
    assert forall|u: int, i: int| 0 <= u < graph.len() && 0 <= i < graph[u]@.len() implies
        #[trigger] graph[u]@[i] < n by {
        assert(valid_row(graph[u]@, u, n, max_degree));
    }
}

} // verus!
