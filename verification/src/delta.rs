//! Vectors added after an index was built, with a graph of their own.
use crate::beam;
use crate::beam::BeamSearchConfig;
use crate::beam::SearchSpace;
use crate::beam::Trace;
use crate::beam::beam_search;
use crate::candidate;
use crate::candidate::Candidate;
use crate::candidate::Hit;
use crate::kmeans;
use crate::metric;
use crate::metric::Distance;
use crate::prune;
use crate::prune::Pairs;
use crate::prune::robust_prune;
use crate::vamana;
use crate::vamana::Table;
use crate::word;
use vstd::prelude::*;

verus! {

/// Ids from here on name added vectors: 2^48.
pub const DELTA_ID_OFFSET: u64 = 0x1_0000_0000_0000;

/// Whether an id names an added vector.
pub fn is_delta_id(id: u64) -> (r: bool)
    ensures
        r == (id >= DELTA_ID_OFFSET),
{
    id >= DELTA_ID_OFFSET
}

/// The position of an added vector. Positions beyond what a `usize` holds do not occur.
pub fn delta_local_idx(id: u64) -> (r: usize)
    requires
        DELTA_ID_OFFSET <= id,
        id - DELTA_ID_OFFSET <= usize::MAX,
    ensures
        r == id - DELTA_ID_OFFSET,
{
    (id - DELTA_ID_OFFSET) as usize
}

/// Added vectors and the graph between them.
pub struct DeltaLayer {
    pub vectors: Vec<Vec<u32>>,
    /// The neighbours of each vector, by position.
    pub graph: Vec<Vec<u32>>,
    /// Where searches start.
    pub entry_point: Option<u32>,
    pub max_degree: usize,
}

/// A graph over vectors as one query searches it.
pub struct PointSpace<'a, D: Distance> {
    pub vectors: &'a Vec<Vec<u32>>,
    pub graph: &'a Vec<Vec<u32>>,
    pub dist: D,
    pub query: &'a [u32],
}

impl<'a, D: Distance> SearchSpace for PointSpace<'a, D> {
    open spec fn holds(&self, id: u32) -> bool {
        &&& kmeans::level(self.vectors@, self.query@.len() as int)
        &&& vamana::valid_graph(self.graph@, self.vectors@.len() as int)
        &&& id < self.vectors@.len()
    }

    open spec fn dist_of(&self, id: u32) -> u32 {
        self.dist.eval_spec(self.query@, self.vectors@[id as int]@)
    }

    open spec fn links_of(&self, id: u32) -> Seq<u32> {
        self.graph@[id as int]@
    }

    open spec fn keeps(&self, id: u32) -> bool {
        true
    }

    open spec fn scaled(&self, dist: u32, factor: u32) -> u32 {
        self.dist.product_spec(dist, factor)
    }

    fn distance(&self, id: u32) -> (d: u32) {
        assert(self.vectors@[id as int]@.len() == self.query@.len());
        self.dist.eval(self.query, self.vectors[id as usize].as_slice())
    }

    fn neighbors(&self, id: u32) -> (r: Vec<u32>) {
        self.graph[id as usize].clone()
    }

    fn keep(&self, id: u32) -> (r: bool) {
        true
    }

    fn scale(&self, dist: u32, factor: u32) -> (r: u32) {
        self.dist.product(dist, factor)
    }
}

/// What a search over added vectors finds: the whole beam, nearest first.
pub open spec fn found_from<D: Distance>(
    space: &PointSpace<D>,
    start: u32,
    beam_width: int,
    t: Trace,
    r: Seq<Candidate>,
) -> bool {
    &&& beam::search_outcome(
        space,
        seq![start],
        beam_width,
        usize::MAX as int,
        beam::unbounded(),
        t,
        r,
    )
    &&& beam::explored(space, seq![start], beam_width, t)
    &&& beam::finished(space, beam_width, t)
    &&& candidate::same_items(r, t.beam)
    &&& candidate::ranked(r)
}

/// The first of the nearest among the first `upto` vectors, with its distance.
pub open spec fn closest_upto<D: Distance>(
    dist: D,
    vectors: Seq<Vec<u32>>,
    point: Seq<u32>,
    upto: int,
) -> (int, u32)
    decreases upto,
{
    if upto <= 1 {
        (0, dist.eval_spec(point, vectors[0]@))
    } else {
        let best = closest_upto(dist, vectors, point, upto - 1);
        let d = dist.eval_spec(point, vectors[upto - 1]@);
        if word::less(d, best.1) {
            (upto - 1, d)
        } else {
            best
        }
    }
}

/// Ids with their distances from node `u`.
pub open spec fn pool_of<D: Distance>(table: &Table<D>, u: u32, ids: Seq<u32>) -> Seq<Candidate> {
    Seq::new(ids.len(), |i: int| Candidate { dist: table.pair(u, ids[i]), id: ids[i] })
}

/// The pattern of 1.2.
pub const DELTA_ALPHA: u32 = 0x3f99_999a;

fn row_is_tidy(row: &Vec<u32>, u: usize, n: usize, max_degree: usize) -> (r: bool)
    ensures
        r == vamana::valid_row(row@, u as int, n as int, max_degree as int),
{
    if row.len() > max_degree {
        return false;
    }
    let mut i: usize = 0;
    while i < row.len()
        invariant
            i <= row@.len() <= max_degree,
            forall|j: int| 0 <= j < i ==> #[trigger] row@[j] < n && row@[j] != u,
            forall|a: int, b: int| 0 <= a < b < i ==> row@[a] != row@[b],
        decreases row@.len() - i,
    {
        let id: u32 = row[i];
        if id as usize >= n || id as usize == u {
            assert(!(row@[i as int] < n && row@[i as int] != u));
            return false;
        }
        let mut j: usize = 0;
        while j < i
            invariant
                j <= i < row@.len() <= max_degree,
                id == row@[i as int],
                forall|a: int| 0 <= a < j ==> row@[a] != id,
            decreases i - j,
        {
            if row[j] == id {
                assert(!row@.no_duplicates()) by {
                    assert(row@[j as int] == row@[i as int]);
                }
                return false;
            }
            j = j + 1;
        }
        i = i + 1;
    }
    true
}

impl DeltaLayer {
    /// Vectors have `dim` components, and the graph names vectors that are there.
    pub open spec fn wf(&self, dim: int) -> bool {
        &&& kmeans::level(self.vectors@, dim)
        &&& vamana::valid_graph(self.graph@, self.vectors@.len() as int)
        &&& self.entry_point matches Some(e) ==> e < self.vectors@.len()
        &&& self.vectors@.len() < u32::MAX
        &&& self.max_degree * 2 <= usize::MAX
    }

    /// No row is longer than it should be, names a node twice, or names its own node.
    pub open spec fn tidy(&self) -> bool {
        vamana::valid_rows(self.graph@, self.vectors@.len() as int, self.max_degree as int)
    }

    /// So is a layer that was new and grew by `add_vectors`: its rows are tidy, and it has
    /// an entry point if it has vectors.
    pub open spec fn is_grown(&self) -> bool {
        &&& self.tidy()
        &&& self.entry_point is Some <==> self.vectors@.len() > 0
    }

    /// Whether the layer is well-formed for vectors of `dim` components.
    pub fn validate(&self, dim: usize) -> (r: bool)
        ensures
            r == self.wf(dim as int),
    {
        let n: usize = self.vectors.len();
        if n >= u32::MAX as usize || self.graph.len() != n || self.max_degree > usize::MAX / 2 {
            return false;
        }
        match self.entry_point {
            Some(e) => {
                if e as usize >= n {
                    return false;
                }
            },
            None => {},
        }
        let mut u: usize = 0;
        while u < n
            invariant
                u <= n == self.vectors@.len() == self.graph@.len(),
                forall|w: int| 0 <= w < u ==> (#[trigger] self.vectors@[w])@.len() == dim,
                forall|w: int, i: int|
                    0 <= w < u && 0 <= i < self.graph@[w]@.len() ==> #[trigger] self.graph@[w]@[i]
                        < n,
            decreases n - u,
        {
            if self.vectors[u].len() != dim {
                assert(self.vectors@[u as int]@.len() != dim);
                return false;
            }
            let row = &self.graph[u];
            let mut i: usize = 0;
            while i < row.len()
                invariant
                    i <= row@.len(),
                    u < n == self.vectors@.len() == self.graph@.len(),
                    row == &self.graph@[u as int],
                    forall|j: int| 0 <= j < i ==> #[trigger] row@[j] < n,
                decreases row@.len() - i,
            {
                if row[i] as usize >= n {
                    assert(self.graph@[u as int]@[i as int] >= n);
                    return false;
                }
                i = i + 1;
            }
            u = u + 1;
        }
        true
    }

    /// Whether no row is longer than it should be, names a node twice, or names its own
    /// node.
    pub fn is_tidy(&self) -> (r: bool)
        ensures
            r == self.tidy(),
    {
        let n: usize = self.vectors.len();
        if self.graph.len() != n {
            return false;
        }
        let mut u: usize = 0;
        while u < n
            invariant
                u <= n == self.vectors@.len() == self.graph@.len(),
                forall|w: int|
                    0 <= w < u ==> vamana::valid_row(
                        (#[trigger] self.graph@[w])@,
                        w,
                        n as int,
                        self.max_degree as int,
                    ),
            decreases n - u,
        {
            if !row_is_tidy(&self.graph[u], u, n, self.max_degree) {
                assert(!vamana::valid_row(
                    self.graph@[u as int]@,
                    u as int,
                    n as int,
                    self.max_degree as int,
                ));
                return false;
            }
            u = u + 1;
        }
        true
    }

    pub fn new(max_degree: usize) -> (r: Self)
        ensures
            r.vectors@.len() == 0,
            r.graph@.len() == 0,
            r.entry_point is None,
            r.max_degree == max_degree,
            r.is_grown(),
    {
        DeltaLayer { vectors: Vec::new(), graph: Vec::new(), entry_point: None, max_degree }
    }

    pub fn len(&self) -> (r: usize)
        ensures
            r == self.vectors@.len(),
    {
        self.vectors.len()
    }

    pub fn is_empty(&self) -> (r: bool)
        ensures
            r == (self.vectors@.len() == 0),
    {
        self.vectors.len() == 0
    }

    /// What `greedy_search_internal` returns.
    pub open spec fn greedy_result<D: Distance>(
        &self,
        query: &[u32],
        start: int,
        beam_width: int,
        dist: D,
        t: Trace,
        r: Seq<Candidate>,
    ) -> bool {
        if start >= self.vectors@.len() {
            r.len() == 0
        } else {
            found_from(
                &PointSpace { vectors: &self.vectors, graph: &self.graph, dist, query },
                start as u32,
                beam_width,
                t,
                r,
            )
        }
    }

    /// Searches the added vectors from one of them.
    pub fn greedy_search_internal<D: Distance>(
        &self,
        query: &[u32],
        start: usize,
        beam_width: usize,
        dist: D,
    ) -> (r: Vec<Candidate>)
        requires
            self.wf(query@.len() as int),
        ensures
            exists|t: Trace| #[trigger]
                self.greedy_result(query, start as int, beam_width as int, dist, t, r@),
            candidate::distinct(r@),
            forall|i: int| 0 <= i < r@.len() ==> (#[trigger] r@[i]).id < self.vectors@.len(),
    {
        if start >= self.vectors.len() {
            let r: Vec<Candidate> = Vec::new();
            proof {
                let t = Trace {
                    seen: Set::empty(),
                    expanded: Seq::empty(),
                    pending: Seq::empty(),
                    beam: Seq::empty(),
                };
                assert(self.greedy_result(query, start as int, beam_width as int, dist, t, r@));
            }
            return r;
        }
        let space = PointSpace { vectors: &self.vectors, graph: &self.graph, dist, query };
        let starts: Vec<u32> = vec![start as u32];
        assert(starts@ =~= seq![start as u32]);
        let config = BeamSearchConfig::default();
        let r = beam_search(&space, starts.as_slice(), beam_width, usize::MAX, config);
        proof {
            let t = choose|t: Trace| #[trigger]
                beam::search_outcome(
                    &space,
                    starts@,
                    beam_width as int,
                    usize::MAX as int,
                    config,
                    t,
                    r@,
                );
            beam::answers_are_sound(
                &space,
                starts@,
                beam_width as int,
                usize::MAX as int,
                config,
                t,
                r@,
            );
            beam::lemma_admitted(&space, t.beam);
            let all = choose|all: Seq<Candidate>| #[trigger]
                candidate::same_items(all, t.beam) && candidate::ranked(all) && r@
                    == candidate::first(all, usize::MAX as int);
            assert(all.to_multiset() =~= t.beam.to_multiset());
            candidate::lemma_same_items(all, t.beam);
            assert(t.beam.len() <= beam_width || t.beam.len() <= 1);
            assert(r@ =~= all);
            assert(self.greedy_result(query, start as int, beam_width as int, dist, t, r@));
        }
        r
    }

    /// The candidates for the neighbours of the vector at `node`: what a search for it
    /// finds, or, without an entry point, all others.
    pub open spec fn candidates_for<D: Distance>(
        &self,
        node: int,
        dist: D,
        query: &[u32],
        t: Trace,
        cands: Seq<Candidate>,
    ) -> bool {
        &&& query@ == self.vectors@[node]@
        &&& match self.entry_point {
            Some(e) => self.greedy_result(
                query,
                e as int,
                if self.max_degree * 2 >= 16 {
                    self.max_degree * 2
                } else {
                    16
                },
                dist,
                t,
                cands,
            ),
            None => {
                &&& candidate::distinct(cands)
                &&& forall|id: u32| #[trigger]
                    candidate::holds_id(cands, id) <==> id < self.vectors@.len() && id != node
                &&& forall|i: int|
                    0 <= i < cands.len() ==> (#[trigger] cands[i]).dist == dist.eval_spec(
                        query@,
                        self.vectors@[cands[i].id as int]@,
                    )
            },
        }
    }

    fn find_candidates<D: Distance>(&self, node: usize, dist: D) -> (cands: Vec<Candidate>)
        requires
            node < self.vectors@.len(),
            self.wf(self.vectors@[node as int]@.len() as int),
        ensures
            exists|query: &[u32], t: Trace| #[trigger]
                self.candidates_for(node as int, dist, query, t, cands@),
            candidate::distinct(cands@),
            forall|i: int|
                0 <= i < cands@.len() ==> (#[trigger] cands@[i]).id < self.vectors@.len(),
    {
        let query = self.vectors[node].as_slice();
        let beam_width: usize = if self.max_degree * 2 >= 16 {
            self.max_degree * 2
        } else {
            16
        };
        match self.entry_point {
            Some(e) => {
                let cands = self.greedy_search_internal(query, e as usize, beam_width, dist);
                proof {
                    let t = choose|t: Trace| #[trigger]
                        self.greedy_result(
                            query,
                            e as int,
                            beam_width as int,
                            dist,
                            t,
                            cands@,
                        );
                    assert(self.candidates_for(node as int, dist, query, t, cands@));
                }
                cands
            },
            None => {
                let mut cands: Vec<Candidate> = Vec::new();
                let mut i: usize = 0;
                while i < self.vectors.len()
                    invariant
                        i <= self.vectors@.len() < u32::MAX,
                        kmeans::level(self.vectors@, query@.len() as int),
                        candidate::distinct(cands@),
                        forall|j: int| 0 <= j < cands@.len() ==> (#[trigger] cands@[j]).id < i,
                        forall|id: u32| #[trigger]
                            candidate::holds_id(cands@, id) <==> id < i && id != node,
                        forall|j: int|
                            0 <= j < cands@.len() ==> (#[trigger] cands@[j]).dist
                                == dist.eval_spec(query@, self.vectors@[cands@[j].id as int]@),
                    decreases self.vectors@.len() - i,
                {
                    if i != node {
                        assert(self.vectors@[i as int]@.len() == query@.len());
                        let d: u32 = dist.eval(query, self.vectors[i].as_slice());
                        let ghost before = cands@;
                        cands.push(Candidate { dist: d, id: i as u32 });
                        proof {
                            assert forall|id: u32| #[trigger]
                                candidate::holds_id(cands@, id) <==> id < i + 1 && id != node by {
                                if candidate::holds_id(before, id) {
                                    let j = choose|j: int|
                                        0 <= j < before.len() && (#[trigger] before[j]).id == id;
                                    assert(cands@[j].id == id);
                                }
                                assert(cands@[before.len() as int].id == i);
                                if candidate::holds_id(cands@, id) && id != i {
                                    let j = choose|j: int|
                                        0 <= j < cands@.len() && (#[trigger] cands@[j]).id == id;
                                    assert(before[j].id == id);
                                }
                            }
                        }
                    }
                    i = i + 1;
                }
                proof {
                    let t = Trace {
                        seen: Set::empty(),
                        expanded: Seq::empty(),
                        pending: Seq::empty(),
                        beam: Seq::empty(),
                    };
                    assert(self.candidates_for(node as int, dist, query, t, cands@));
                }
                cands
            },
        }
    }

    /// The neighbours chosen for the vector at `node`.
    pub open spec fn neighbors_for<D: Distance>(
        &self,
        node: int,
        dist: D,
        query: &[u32],
        t: Trace,
        cands: Seq<Candidate>,
        row: Seq<u32>,
    ) -> bool {
        &&& self.candidates_for(node, dist, query, t, cands)
        &&& prune::pruned(
            &Table { vectors: &self.vectors, dist },
            node as u32,
            cands,
            self.max_degree as int,
            DELTA_ALPHA,
            row,
        )
    }

    /// Chooses neighbours for the vector at a position.
    pub fn find_and_prune_neighbors<D: Distance>(&self, node_idx: usize, dist: D) -> (row: Vec<u32>)
        requires
            node_idx < self.vectors@.len(),
            self.wf(self.vectors@[node_idx as int]@.len() as int),
        ensures
            exists|query: &[u32], t: Trace, cands: Seq<Candidate>| #[trigger]
                self.neighbors_for(node_idx as int, dist, query, t, cands, row@),
            vamana::valid_row(
                row@,
                node_idx as int,
                self.vectors@.len() as int,
                self.max_degree as int,
            ),
    {
        let cands = self.find_candidates(node_idx, dist);
        let table = Table { vectors: &self.vectors, dist };
        proof {
            assert(self.vectors@[0]@.len() == self.vectors@[node_idx as int]@.len());
            assert forall|i: int| 0 <= i < cands@.len() implies table.has((#[trigger] cands@[i]).id) by {}
        }
        let row = robust_prune(&table, node_idx as u32, &cands, self.max_degree, DELTA_ALPHA);
        proof {
            let (query, t) = choose|query: &[u32], t: Trace| #[trigger]
                self.candidates_for(node_idx as int, dist, query, t, cands@);
            assert(self.neighbors_for(node_idx as int, dist, query, t, cands@, row@));
            prune::pruning_is_sound(
                &table,
                node_idx as u32,
                cands@,
                self.max_degree as int,
                DELTA_ALPHA,
                row@,
            );
            assert forall|i: int| 0 <= i < row@.len() implies #[trigger] row@[i] < self.vectors@.len()
                && row@[i] != node_idx by {
                assert(candidate::holds_id(cands@, row@[i]));
                let j = choose|j: int| 0 <= j < cands@.len() && (#[trigger] cands@[j]).id == row@[i];
                assert(cands@[j].id < self.vectors@.len());
            }
        }
        row
    }

    /// The vector nearest to the mean of all; 0 when there are none.
    pub fn compute_medoid<D: Distance>(&self, dist: D) -> (r: u32)
        requires
            self.vectors@.len() < u32::MAX,
            self.vectors@.len() > 0 ==> kmeans::level(
                self.vectors@,
                self.vectors@[0]@.len() as int,
            ),
        ensures
            self.vectors@.len() == 0 ==> r == 0,
            self.vectors@.len() > 0 ==> r < self.vectors@.len() && r == closest_upto(
                dist,
                self.vectors@,
                metric::mean_of(dist, metric::rows(self.vectors@)),
                self.vectors@.len() as int,
            ).0,
    {
        if self.vectors.len() == 0 {
            return 0;
        }
        let centroid = metric::mean(dist, &self.vectors);
        let mut best: usize = 0;
        let mut best_dist: u32 = dist.eval(centroid.as_slice(), self.vectors[0].as_slice());
        let mut i: usize = 1;
        while i < self.vectors.len()
            invariant
                1 <= i <= self.vectors@.len(),
                kmeans::level(self.vectors@, self.vectors@[0]@.len() as int),
                centroid@.len() == self.vectors@[0]@.len(),
                best < self.vectors@.len(),
                (best as int, best_dist) == closest_upto(
                    dist,
                    self.vectors@,
                    centroid@,
                    i as int,
                ),
            decreases self.vectors@.len() - i,
        {
            assert(self.vectors@[i as int]@.len() == self.vectors@[0]@.len());
            let d: u32 = dist.eval(centroid.as_slice(), self.vectors[i].as_slice());
            if word::lt(d, best_dist) {
                best = i;
                best_dist = d;
            }
            i = i + 1;
        }
        best as u32
    }
}

/// The row of `u` after `new` chose it as a neighbour: `new` is added where there is room,
/// and else the row is pruned with it.
pub open spec fn linked<D: Distance>(
    table: &Table<D>,
    u: u32,
    new: u32,
    max_degree: int,
    before: Seq<u32>,
    after: Seq<u32>,
) -> bool {
    if before.contains(new) {
        after == before
    } else if before.len() < max_degree {
        after == before.push(new)
    } else {
        prune::pruned(
            table,
            u,
            pool_of(table, u, before.push(new)),
            max_degree,
            DELTA_ALPHA,
            after,
        )
    }
}

/// Adding one vector takes `pre` to `post`. In between, at `mid`, the vector is there but
/// has no neighbours yet.
pub open spec fn inserted<D: Distance>(
    pre: &DeltaLayer,
    v: Seq<u32>,
    dist: D,
    mid: &DeltaLayer,
    query: &[u32],
    t: Trace,
    cands: Seq<Candidate>,
    post: &DeltaLayer,
) -> bool {
    let n = pre.vectors@.len() as int;
    &&& post.vectors@.len() == n + 1
    &&& post.vectors@.take(n) == pre.vectors@
    &&& post.vectors@[n]@ == v
    &&& post.graph@.len() == n + 1
    &&& post.max_degree == pre.max_degree
    &&& post.entry_point == match pre.entry_point {
        Some(e) => Some(e),
        None => Some(0u32),
    }
    &&& if n == 0 {
        post.graph@[0]@.len() == 0
    } else {
        &&& mid.vectors == post.vectors
        &&& mid.graph@.len() == n + 1
        &&& mid.graph@.take(n) == pre.graph@
        &&& mid.graph@[n]@.len() == 0
        &&& mid.entry_point == pre.entry_point
        &&& mid.max_degree == pre.max_degree
        &&& mid.neighbors_for(n, dist, query, t, cands, post.graph@[n]@)
        &&& forall|u: int|
            0 <= u < n ==> if post.graph@[n]@.contains(u as u32) {
                linked(
                    &Table { vectors: &post.vectors, dist },
                    u as u32,
                    n as u32,
                    pre.max_degree as int,
                    pre.graph@[u]@,
                    (#[trigger] post.graph@[u])@,
                )
            } else {
                post.graph@[u]@ == pre.graph@[u]@
            }
    }
}

/// Some way of adding one vector takes `pre` to `post`.
pub open spec fn grows<D: Distance>(pre: &DeltaLayer, v: Seq<u32>, dist: D, post: &DeltaLayer) -> bool {
    exists|mid: &DeltaLayer, query: &[u32], t: Trace, cands: Seq<Candidate>| #[trigger]
        inserted(pre, v, dist, mid, query, t, cands, post)
}

proof fn lemma_pool<D: Distance>(table: &Table<D>, u: u32, ids: Seq<u32>)
    ensures
        ids.no_duplicates() ==> candidate::distinct(pool_of(table, u, ids)),
        forall|id: u32| #[trigger]
            candidate::holds_id(pool_of(table, u, ids), id) ==> ids.contains(id),
{
    let pool = pool_of(table, u, ids);
    assert forall|id: u32| #[trigger] candidate::holds_id(pool, id) implies ids.contains(id) by {
        let i = choose|i: int| 0 <= i < pool.len() && (#[trigger] pool[i]).id == id;
        assert(ids[i] == id);
    }
}

/// Linking back keeps a row sound.
proof fn lemma_linked_sound<D: Distance>(
    table: &Table<D>,
    u: u32,
    new: u32,
    max_degree: int,
    before: Seq<u32>,
    after: Seq<u32>,
)
    requires
        0 <= max_degree,
        linked(table, u, new, max_degree, before, after),
        forall|i: int| 0 <= i < before.len() ==> #[trigger] before[i] < new,
        u < new,
    ensures
        forall|i: int| 0 <= i < after.len() ==> #[trigger] after[i] <= new,
        vamana::valid_row(before, u as int, new as int, max_degree) ==> vamana::valid_row(
            after,
            u as int,
            new + 1,
            max_degree,
        ),
{
    if !before.contains(new) && before.len() >= max_degree {
        let ids = before.push(new);
        let pool = pool_of(table, u, ids);
        lemma_pool(table, u, ids);
        prune::pruning_is_sound(table, u, pool, max_degree, DELTA_ALPHA, after);
        assert forall|i: int| 0 <= i < after.len() implies #[trigger] after[i] <= new by {
            assert(candidate::holds_id(pool, after[i]));
            assert(ids.contains(after[i]));
            let j = choose|j: int| 0 <= j < ids.len() && ids[j] == after[i];
            if j < before.len() {
                assert(before[j] < new);
            }
        }
        if vamana::valid_row(before, u as int, new as int, max_degree) {
            assert(ids.no_duplicates());
        }
    } else if !before.contains(new) {
        assert(after == before.push(new));
        assert forall|i: int| 0 <= i < after.len() implies #[trigger] after[i] <= new by {
            if i < before.len() {
                assert(after[i] == before[i]);
            }
        }
        if vamana::valid_row(before, u as int, new as int, max_degree) {
            assert(after.no_duplicates());
            assert forall|i: int| 0 <= i < after.len() implies #[trigger] after[i] < new + 1
                && after[i] != u by {
                if i < before.len() {
                    assert(after[i] == before[i]);
                }
            }
        }
    }
}

impl DeltaLayer {
    fn link_row<D: Distance>(&self, u: u32, new: u32, dist: D) -> (after: Vec<u32>)
        requires
            u < self.vectors@.len(),
            new < self.vectors@.len(),
            self.wf(self.vectors@[0]@.len() as int),
        ensures
            linked(
                &Table { vectors: &self.vectors, dist },
                u,
                new,
                self.max_degree as int,
                self.graph@[u as int]@,
                after@,
            ),
    {
        let table = Table { vectors: &self.vectors, dist };
        let before = &self.graph[u as usize];
        let mut row: Vec<u32> = before.clone();
        assert(row@ =~= before@);
        let mut present: bool = false;
        let mut i: usize = 0;
        while i < row.len()
            invariant
                i <= row@.len(),
                present == row@.take(i as int).contains(new),
            decreases row@.len() - i,
        {
            proof {
                let a = row@.take(i as int);
                let b = row@.take(i + 1);
                assert(b =~= a.push(row@[i as int]));
                assert(b.contains(new) <==> a.contains(new) || row@[i as int] == new) by {
                    if a.contains(new) {
                        let m = choose|m: int| 0 <= m < a.len() && a[m] == new;
                        assert(b[m] == new);
                    }
                    assert(b[i as int] == row@[i as int]);
                }
            }
            if row[i] == new {
                present = true;
            }
            i = i + 1;
        }
        assert(row@.take(row@.len() as int) =~= row@);
        if present {
            return row;
        }
        if row.len() < self.max_degree {
            row.push(new);
            return row;
        }
        row.push(new);
        let ghost ids = row@;
        let mut pool: Vec<Candidate> = Vec::new();
        let mut i: usize = 0;
        while i < row.len()
            invariant
                i <= row@.len(),
                row@ == ids,
                table.vectors == &self.vectors,
                table.dist == dist,
                table.has(u),
                forall|j: int| 0 <= j < ids.len() ==> table.has(#[trigger] ids[j]),
                pool@.len() == i,
                forall|j: int| 0 <= j < i ==> #[trigger] pool@[j] == pool_of(&table, u, ids)[j],
            decreases row@.len() - i,
        {
            assert(table.has(ids[i as int]));
            let d: u32 = table.between(u, row[i]);
            pool.push(Candidate { dist: d, id: row[i] });
            i = i + 1;
        }
        assert(pool@ =~= pool_of(&table, u, ids));
        assert forall|j: int| 0 <= j < pool@.len() implies table.has((#[trigger] pool@[j]).id) by {
            assert(table.has(ids[j]));
        }
        robust_prune(&table, u, &pool, self.max_degree, DELTA_ALPHA)
    }

    /// Adds one vector and links it with its neighbours.
    #[verifier::rlimit(40)]
    pub fn insert<D: Distance>(&mut self, v: Vec<u32>, dist: D)
        requires
            old(self).wf(v@.len() as int),
            old(self).vectors@.len() + 1 < u32::MAX,
        ensures
            final(self).wf(v@.len() as int),
            grows(&*old(self), v@, dist, &*final(self)),
            old(self).tidy() ==> final(self).tidy(),
            final(self).vectors@.len() == old(self).vectors@.len() + 1,
            final(self).max_degree == old(self).max_degree,
    {
        let ghost pre = *self;
        let ghost n = self.vectors@.len() as int;
        let ghost dim = v@.len() as int;
        let ghost vs = v@;
        let local: u32 = self.vectors.len() as u32;
        self.vectors.push(v);
        self.graph.push(Vec::new());
        let ghost mid = *self;
        proof {
            assert(self.vectors@.take(n) =~= pre.vectors@);
            assert(mid.graph@.take(n) =~= pre.graph@);
            assert forall|i: int| 0 <= i < self.vectors@.len() implies (#[trigger] self.vectors@[i])@.len()
                == dim by {
                if i < n {
                    assert(self.vectors@[i] == pre.vectors@[i]);
                }
            }
            assert forall|u: int, i: int|
                0 <= u < self.graph@.len() && 0 <= i < self.graph@[u]@.len() implies #[trigger] self.graph@[u]@[i]
                < n + 1 by {
                if u < n {
                    assert(self.graph@[u] == pre.graph@[u]);
                    assert(pre.graph@[u]@[i] < n);
                }
            }
            assert(mid.wf(dim));
        }
        let ghost mut query: &[u32] = arbitrary();
        let ghost mut t: Trace = arbitrary();
        let ghost mut cands: Seq<Candidate> = Seq::empty();
        if local > 0 {
            let row = self.find_and_prune_neighbors(local as usize, dist);
            proof {
                let w = choose|query: &[u32], t: Trace, cands: Seq<Candidate>| #[trigger]
                    mid.neighbors_for(n, dist, query, t, cands, row@);
                query = w.0;
                t = w.1;
                cands = w.2;
            }
            let mut j: usize = 0;
            while j < row.len()
                invariant
                    j <= row@.len(),
                    local == n,
                    n + 1 == mid.vectors@.len() < u32::MAX,
                    dim == mid.vectors@[0]@.len(),
                    mid.wf(dim),
                    self.vectors == mid.vectors,
                    self.entry_point == mid.entry_point,
                    self.max_degree == mid.max_degree == pre.max_degree,
                    self.graph@.len() == n + 1,
                    mid.graph@.len() == n + 1,
                    pre.graph@.len() == n,
                    mid.graph@.take(n) == pre.graph@,
                    forall|u: int, i: int|
                        0 <= u < n && 0 <= i < pre.graph@[u]@.len() ==> #[trigger] pre.graph@[u]@[i]
                            < n,
                    vamana::valid_row(row@, n, n + 1, pre.max_degree as int),
                    self.graph@[n]@.len() == 0,
                    forall|u: int|
                        0 <= u < n ==> if row@.take(j as int).contains(u as u32) {
                            linked(
                                &Table { vectors: &mid.vectors, dist },
                                u as u32,
                                n as u32,
                                pre.max_degree as int,
                                pre.graph@[u]@,
                                (#[trigger] self.graph@[u])@,
                            )
                        } else {
                            self.graph@[u] == pre.graph@[u]
                        },
                decreases row@.len() - j,
            {
                let nb: u32 = row[j];
                assert(row@[j as int] < n + 1 && row@[j as int] != n);
                proof {
                    let a = row@.take(j as int);
                    assert(!a.contains(nb)) by {
                        if a.contains(nb) {
                            let m = choose|m: int| 0 <= m < a.len() && a[m] == nb;
                            assert(row@[m] == row@[j as int]);
                        }
                    }
                    assert(self.graph@[nb as int] == pre.graph@[nb as int]);
                    assert(self.graph_is_sound(n)) by {
                        assert forall|u: int, i: int|
                            0 <= u < n + 1 && 0 <= i < self.graph@[u]@.len() implies #[trigger] self.graph@[u]@[i]
                            < n + 1 by {
                            if u < n {
                                if a.contains(u as u32) {
                                    assert forall|c: int|
                                        0 <= c < pre.graph@[u]@.len() implies #[trigger] pre.graph@[u]@[c]
                                        < n by {}
                                    lemma_linked_sound(
                                        &Table { vectors: &mid.vectors, dist },
                                        u as u32,
                                        n as u32,
                                        pre.max_degree as int,
                                        pre.graph@[u]@,
                                        self.graph@[u]@,
                                    );
                                } else {
                                    assert(self.graph@[u] == pre.graph@[u]);
                                    assert(pre.graph@[u]@[i] < n);
                                }
                            }
                        }
                    }
                }
                let after = self.link_row(nb, local, dist);
                let ghost before_graph = self.graph@;
                self.graph.set(nb as usize, after);
                proof {
                    let a = row@.take(j as int);
                    let b = row@.take(j + 1);
                    assert(b =~= a.push(nb));
                    assert forall|x: u32| #[trigger] b.contains(x) <==> a.contains(x) || x == nb by {
                        if a.contains(x) {
                            let m = choose|m: int| 0 <= m < a.len() && a[m] == x;
                            assert(b[m] == x);
                        }
                        assert(b[j as int] == nb);
                    }
                    assert forall|u: int| 0 <= u < n implies if b.contains(u as u32) {
                        linked(
                            &Table { vectors: &mid.vectors, dist },
                            u as u32,
                            n as u32,
                            pre.max_degree as int,
                            pre.graph@[u]@,
                            (#[trigger] self.graph@[u])@,
                        )
                    } else {
                        self.graph@[u] == pre.graph@[u]
                    } by {
                        if u != nb {
                            assert(self.graph@[u] == before_graph[u]);
                        }
                    }
                }
                j = j + 1;
            }
            assert(row@.take(row@.len() as int) =~= row@);
            self.graph.set(local as usize, row);
        }
        if self.entry_point.is_none() {
            self.entry_point = Some(0);
        }
        proof {
            let post = *self;
            if n > 0 {
                let row = post.graph@[n]@;
                assert forall|u: int| 0 <= u < n implies if row.contains(u as u32) {
                    linked(
                        &Table { vectors: &post.vectors, dist },
                        u as u32,
                        n as u32,
                        pre.max_degree as int,
                        pre.graph@[u]@,
                        (#[trigger] post.graph@[u])@,
                    )
                } else {
                    post.graph@[u]@ == pre.graph@[u]@
                } by {}
                assert forall|u: int| 0 <= u < n implies ({
                    &&& forall|i: int| 0 <= i < post.graph@[u]@.len() ==> #[trigger] post.graph@[u]@[i]
                        < n + 1
                    &&& pre.tidy() ==> vamana::valid_row(
                        (#[trigger] post.graph@[u])@,
                        u,
                        n + 1,
                        pre.max_degree as int,
                    )
                }) by {
                    assert forall|c: int| 0 <= c < pre.graph@[u]@.len() implies #[trigger] pre.graph@[u]@[c]
                        < n by {}
                    if pre.tidy() {
                        assert(vamana::valid_row(pre.graph@[u]@, u, n, pre.max_degree as int));
                    }
                    if row.contains(u as u32) {
                        lemma_linked_sound(
                            &Table { vectors: &post.vectors, dist },
                            u as u32,
                            n as u32,
                            pre.max_degree as int,
                            pre.graph@[u]@,
                            post.graph@[u]@,
                        );
                    }
                }
            }
            assert(inserted(&pre, vs, dist, &mid, query, t, cands, &post));
            assert(post.wf(dim));
        }
    }

    spec fn graph_is_sound(&self, n: int) -> bool {
        vamana::valid_graph(self.graph@, n + 1)
    }
}

/// Adding `vectors` one after the other takes `states[0]` through `states` to the last.
pub open spec fn steps<D: Distance>(
    vectors: Seq<Vec<u32>>,
    dist: D,
    states: Seq<DeltaLayer>,
) -> bool {
    &&& states.len() == vectors.len() + 1
    &&& forall|i: int|
        0 <= i < vectors.len() ==> grows(
            &#[trigger] states[i],
            vectors[i]@,
            dist,
            &states[i + 1],
        )
}

/// `add_vectors` takes `pre` to `post`: the vectors are added one after the other, and then
/// the entry point is the vector nearest to the mean of all.
pub open spec fn extended<D: Distance>(
    pre: DeltaLayer,
    vectors: Seq<Vec<u32>>,
    dist: D,
    states: Seq<DeltaLayer>,
    post: DeltaLayer,
) -> bool {
    let last = states.last();
    &&& steps(vectors, dist, states)
    &&& states[0] == pre
    &&& post.vectors == last.vectors
    &&& post.graph == last.graph
    &&& post.max_degree == last.max_degree
    &&& post.entry_point == if last.vectors@.len() > 1 {
        Some(
            closest_upto(
                dist,
                last.vectors@,
                metric::mean_of(dist, metric::rows(last.vectors@)),
                last.vectors@.len() as int,
            ).0 as u32,
        )
    } else {
        last.entry_point
    }
}

/// What `DeltaLayer::search` returns.
pub open spec fn delta_found<D: Distance>(
    layer: &DeltaLayer,
    query: &[u32],
    k: int,
    beam_width: int,
    dist: D,
    t: Trace,
    all: Seq<Candidate>,
    r: Seq<Hit>,
) -> bool {
    if layer.vectors@.len() == 0 {
        r.len() == 0
    } else {
        &&& layer.greedy_result(
            query,
            match layer.entry_point {
                Some(e) => e as int,
                None => 0,
            },
            beam_width,
            dist,
            t,
            all,
        )
        &&& r == candidate::first(all, k).map_values(
            |c: Candidate| Hit { dist: c.dist, id: (DELTA_ID_OFFSET + c.id) as u64 },
        )
    }
}

impl DeltaLayer {
    /// Adds vectors, and returns their ids: they follow on those given out before.
    #[verifier::rlimit(40)]
    pub fn add_vectors<D: Distance>(&mut self, vectors: &Vec<Vec<u32>>, dist: D) -> (ids: Vec<u64>)
        requires
            old(self).vectors@.len() + vectors@.len() < u32::MAX,
            exists|dim: int| #[trigger] old(self).wf(dim) && kmeans::level(vectors@, dim),
        ensures
            exists|states: Seq<DeltaLayer>| #[trigger]
                extended(*old(self), vectors@, dist, states, *final(self)),
            forall|dim: int| #[trigger]
                old(self).wf(dim) && kmeans::level(vectors@, dim) ==> final(self).wf(dim),
            old(self).tidy() ==> final(self).tidy(),
            old(self).is_grown() ==> final(self).is_grown(),
            final(self).max_degree == old(self).max_degree,
            final(self).vectors@.len() == old(self).vectors@.len() + vectors@.len(),
            forall|i: int|
                0 <= i < old(self).vectors@.len() ==> #[trigger] final(self).vectors@[i]
                    == old(self).vectors@[i],
            forall|i: int|
                0 <= i < vectors@.len() ==> (#[trigger] final(self).vectors@[old(self).vectors@.len() + i])@ == vectors@[i]@,
            ids@ == Seq::new(
                vectors@.len(),
                |i: int| (DELTA_ID_OFFSET + old(self).vectors@.len() + i) as u64,
            ),
    {
        let ghost pre = *self;
        let ghost dim = choose|dim: int| #[trigger] pre.wf(dim) && kmeans::level(vectors@, dim);
        let start: usize = self.vectors.len();
        let ghost want = Seq::new(
            vectors@.len(),
            |i: int| (DELTA_ID_OFFSET + pre.vectors@.len() + i) as u64,
        );
        let mut ids: Vec<u64> = Vec::new();
        let ghost mut states: Seq<DeltaLayer> = seq![pre];
        let mut i: usize = 0;
        while i < vectors.len()
            invariant
                i <= vectors@.len(),
                start == pre.vectors@.len(),
                start + vectors@.len() < u32::MAX,
                pre.wf(dim),
                kmeans::level(vectors@, dim),
                self.wf(dim),
                pre.tidy() ==> self.tidy(),
                pre.is_grown() ==> self.is_grown(),
                self.max_degree == pre.max_degree,
                self.vectors@.len() == start + i,
                steps(vectors@.take(i as int), dist, states),
                states[0] == pre,
                states.last() == *self,
                forall|j: int| 0 <= j < start ==> #[trigger] self.vectors@[j] == pre.vectors@[j],
                forall|j: int|
                    0 <= j < i ==> (#[trigger] self.vectors@[start + j])@ == vectors@[j]@,
                ids@.len() == i,
                want == Seq::new(
                    vectors@.len(),
                    |i: int| (DELTA_ID_OFFSET + pre.vectors@.len() + i) as u64,
                ),
                forall|j: int| 0 <= j < i ==> #[trigger] ids@[j] == want[j],
            decreases vectors@.len() - i,
        {
            assert(vectors@[i as int]@.len() == dim);
            let local: u64 = (start + i) as u64;
            ids.push(DELTA_ID_OFFSET + local);
            let ghost before = *self;
            let v = vectors[i].clone();
            assert(v@ =~= vectors@[i as int]@);
            self.insert(v, dist);
            proof {
                let n = before.vectors@.len() as int;
                let (mid, query, t, cands) = choose|
                    mid: &DeltaLayer,
                    query: &[u32],
                    t: Trace,
                    cands: Seq<Candidate>,
                | #[trigger]
                    inserted(&before, v@, dist, mid, query, t, cands, &*self);
                assert(self.vectors@.take(n) == before.vectors@);
                assert forall|j: int| 0 <= j < n implies #[trigger] self.vectors@[j]
                    == before.vectors@[j] by {
                    assert(self.vectors@.take(n)[j] == self.vectors@[j]);
                }
                let more = states.push(*self);
                let taken = vectors@.take(i + 1);
                assert forall|j: int| 0 <= j < taken.len() implies grows(
                    &#[trigger] more[j],
                    taken[j]@,
                    dist,
                    &more[j + 1],
                ) by {
                    if j < i {
                        assert(grows(&states[j], vectors@.take(i as int)[j]@, dist, &states[j + 1]));
                        assert(more[j] == states[j]);
                        assert(more[j + 1] == states[j + 1]);
                    } else {
                        assert(more[j] == before);
                    }
                }
                assert(steps(taken, dist, more));
                states = more;
            }
            i = i + 1;
        }
        assert(vectors@.take(vectors@.len() as int) =~= vectors@);
        assert(ids@ =~= want);
        let ghost last = *self;
        if self.vectors.len() > 1 {
            assert(self.vectors@[0]@.len() == dim);
            let medoid: u32 = self.compute_medoid(dist);
            self.entry_point = Some(medoid);
        }
        proof {
            assert(extended(pre, vectors@, dist, states, *self));
            assert forall|d: int| #[trigger] pre.wf(d) && kmeans::level(vectors@, d) implies self.wf(
                d,
            ) by {
                if pre.vectors@.len() > 0 {
                    assert(pre.vectors@[0]@.len() == dim);
                } else if vectors@.len() > 0 {
                    assert(vectors@[0]@.len() == dim);
                }
            }
        }
        ids
    }

    /// Searches the added vectors: up to `k` of those that a beam of the given width
    /// reaches, nearest first.
    pub fn search<D: Distance>(&self, query: &[u32], k: usize, beam_width: usize, dist: D) -> (r: Vec<
        Hit,
    >)
        requires
            self.wf(query@.len() as int),
        ensures
            exists|t: Trace, all: Seq<Candidate>| #[trigger]
                delta_found(self, query, k as int, beam_width as int, dist, t, all, r@),
            forall|i: int|
                0 <= i < r@.len() ==> DELTA_ID_OFFSET <= (#[trigger] r@[i]).id < DELTA_ID_OFFSET
                    + self.vectors@.len(),
    {
        let mut r: Vec<Hit> = Vec::new();
        if self.vectors.len() == 0 {
            proof {
                assert(delta_found(
                    self,
                    query,
                    k as int,
                    beam_width as int,
                    dist,
                    arbitrary(),
                    Seq::empty(),
                    r@,
                ));
            }
            return r;
        }
        let entry: usize = match self.entry_point {
            Some(e) => e as usize,
            None => 0,
        };
        let all = self.greedy_search_internal(query, entry, beam_width, dist);
        let ghost want = candidate::first(all@, k as int).map_values(
            |c: Candidate| Hit { dist: c.dist, id: (DELTA_ID_OFFSET + c.id) as u64 },
        );
        let mut i: usize = 0;
        while i < all.len() && i < k
            invariant
                i <= all@.len(),
                i <= k,
                want == candidate::first(all@, k as int).map_values(
                    |c: Candidate| Hit { dist: c.dist, id: (DELTA_ID_OFFSET + c.id) as u64 },
                ),
                forall|j: int| 0 <= j < all@.len() ==> (#[trigger] all@[j]).id < self.vectors@.len(),
                r@.len() == i,
                forall|j: int| 0 <= j < i ==> #[trigger] r@[j] == want[j],
                forall|j: int|
                    0 <= j < i ==> DELTA_ID_OFFSET <= (#[trigger] r@[j]).id < DELTA_ID_OFFSET
                        + self.vectors@.len(),
            decreases all@.len() - i,
        {
            r.push(Hit { dist: all[i].dist, id: DELTA_ID_OFFSET + all[i].id as u64 });
            i = i + 1;
        }
        proof {
            assert(r@ =~= want);
            let t = choose|t: Trace| #[trigger]
                self.greedy_result(query, entry as int, beam_width as int, dist, t, all@);
            assert(delta_found(self, query, k as int, beam_width as int, dist, t, all@, r@));
        }
        r
    }

    /// The added vector at a position.
    pub fn get_vector(&self, local_idx: usize) -> (r: Option<&Vec<u32>>)
        ensures
            r == if local_idx < self.vectors@.len() {
                Some(&self.vectors@[local_idx as int])
            } else {
                None
            },
    {
        if local_idx < self.vectors.len() {
            Some(&self.vectors[local_idx])
        } else {
            None
        }
    }
}

} // verus!
