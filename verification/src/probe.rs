//! Searching an index of postings.
use crate::bytes;
use crate::candidate;
use crate::candidate::Candidate;
use crate::candidate::Hit;
use crate::candidate::sort;
use crate::candidate::take_lowest;
use crate::metric::Distance;
use crate::metric::MetricKind;
use crate::postings::Entry;
use crate::quantizer::Prepared;
use crate::quantizer::QuantizerState;
use crate::rabitq;
use crate::rabitq::RaBitQ;
use crate::rabitq::RaBitQQuery;
use crate::select;
use crate::select::Best;
use crate::spfresh::SPFresh;
use crate::word;
use vstd::prelude::*;

verus! {

/// How an entry of a block is scored.
pub type Score = spec_fn(int, Entry) -> u32;

/// A distance that the squared distance between a query and a coded vector is not
/// expected to be below: the estimate less its error radius.
pub open spec fn lower_bound<D: Distance>(
    rq: RaBitQ,
    dist: D,
    query: Seq<u32>,
    centroid: Seq<u32>,
    code: Seq<u8>,
) -> u32 {
    let q = rabitq::query_about(dist, rq.padded, rq.signs@, query, centroid);
    dist.difference_spec(
        rabitq::estimate(dist, &q, code),
        rabitq::error_radius(dist, rq.padded, &q, code),
    )
}

proof fn lemma_bounds_agree<D: Distance>(
    rq: RaBitQ,
    dist: D,
    query: Seq<u32>,
    centroid: Seq<u32>,
    code: Seq<u8>,
    q: RaBitQQuery,
)
    requires
        rq.is_query(dist, query, centroid, &q),
    ensures
        lower_bound(rq, dist, query, centroid, code) == dist.difference_spec(
            rabitq::estimate(dist, &q, code),
            rabitq::error_radius(dist, rq.padded, &q, code),
        ),
{
    assert(rabitq::is_query_about(dist, rq.padded, rq.signs@, query, centroid, &q));
    let p = rabitq::query_about(dist, rq.padded, rq.signs@, query, centroid);
    assert(rq.is_query(dist, query, centroid, &p));
    assert(p.planes@ == q.planes@);
}

/// Of `all`, with a bound for each, some were considered and the best `k` of these
/// kept. One that was not considered has no bound below infinity, or one that is
/// not below the distance of any that was kept.
pub open spec fn is_pruned(
    all: Seq<Hit>,
    bounds: Seq<Hit>,
    k: int,
    considered: Seq<Hit>,
    kept: Seq<Hit>,
) -> bool {
    &&& bounds.len() == all.len()
    &&& candidate::distinct(considered)
    &&& select::is_best(considered, k, kept)
    &&& forall|i: int| 0 <= i < considered.len() ==> all.contains(#[trigger] considered[i])
    &&& forall|j: int|
        0 <= j < all.len() && !candidate::holds_id(considered, (#[trigger] all[j]).id) ==> {
            ||| !word::less(bounds[j].dist, word::INFINITY)
            ||| kept.len() == k && (select::numeric(considered) ==> forall|i: int|
                0 <= i < kept.len() ==> word::order((#[trigger] kept[i]).dist) <= word::order(
                    bounds[j].dist,
                ))
        }
}

/// The bounds are numbers, and each distance is a finite number not below its bound.
pub open spec fn bounds_hold(all: Seq<Hit>, bounds: Seq<Hit>) -> bool {
    &&& bounds.len() == all.len()
    &&& forall|j: int|
        0 <= j < all.len() ==> word::magnitude((#[trigger] all[j]).dist) < word::INFINITY
            && !word::is_nan(bounds[j].dist) && word::order(bounds[j].dist) <= word::order(
            all[j].dist,
        )
}

/// Where the bounds hold, nothing is lost by not considering what they rule out: the
/// kept hits are the best of all.
pub proof fn pruning_by_bounds_is_exact(
    all: Seq<Hit>,
    bounds: Seq<Hit>,
    k: int,
    considered: Seq<Hit>,
    kept: Seq<Hit>,
)
    requires
        candidate::distinct(all),
        bounds_hold(all, bounds),
        is_pruned(all, bounds, k, considered, kept),
    ensures
        select::is_best(all, k, kept),
{
    assert forall|i: int| 0 <= i < considered.len() implies !word::is_nan(
        (#[trigger] considered[i]).dist,
    ) by {
        assert(all.contains(considered[i]));
        let j = choose|j: int| 0 <= j < all.len() && all[j] == considered[i];
        assert(word::magnitude(all[j].dist) < word::INFINITY);
    }
    assert forall|i: int| 0 <= i < kept.len() implies all.contains(#[trigger] kept[i]) by {
        assert(considered.contains(kept[i]));
        let m = choose|m: int| 0 <= m < considered.len() && considered[m] == kept[i];
        assert(all.contains(considered[m]));
    }
    assert forall|j: int|
        0 <= j < all.len() && !candidate::holds_id(kept, (#[trigger] all[j]).id) implies kept.len()
        == k && (select::numeric(all) ==> forall|i: int|
        0 <= i < kept.len() ==> word::order((#[trigger] kept[i]).dist) <= word::order(
            all[j].dist,
        )) by {
        assert(word::magnitude(all[j].dist) < word::INFINITY);
        if candidate::holds_id(considered, all[j].id) {
            let m = choose|m: int|
                0 <= m < considered.len() && (#[trigger] considered[m]).id == all[j].id;
            assert(all.contains(considered[m]));
            let n = choose|n: int| 0 <= n < all.len() && all[n] == considered[m];
            if n < j {
                assert(all[n].id != all[j].id);
            } else if j < n {
                assert(all[j].id != all[n].id);
            }
            assert(considered[m] == all[j]);
        }
    }
    lemma_considered_count(all, considered);
    if kept.len() < k && considered.len() < all.len() {
        lemma_one_left_out(all, considered);
        let j = choose|j: int|
            0 <= j < all.len() && !candidate::holds_id(considered, (#[trigger] all[j]).id);
        assert(word::magnitude(all[j].dist) < word::INFINITY);
    }
}

/// There are no more considered than there are.
proof fn lemma_considered_count(all: Seq<Hit>, considered: Seq<Hit>)
    requires
        candidate::distinct(considered),
        forall|i: int| 0 <= i < considered.len() ==> all.contains(#[trigger] considered[i]),
    ensures
        considered.len() <= all.len(),
{
    assert(considered.no_duplicates());
    considered.unique_seq_to_set();
    all.lemma_cardinality_of_set();
    vstd::seq_lib::seq_to_set_is_finite(all);
    assert(considered.to_set().subset_of(all.to_set())) by {
        assert forall|h: Hit| considered.to_set().contains(h) implies all.to_set().contains(h) by {
            let i = choose|i: int| 0 <= i < considered.len() && considered[i] == h;
            assert(all.contains(considered[i]));
        }
    }
    vstd::set_lib::lemma_len_subset(considered.to_set(), all.to_set());
}

/// Where fewer are considered than there are, one was left out.
proof fn lemma_one_left_out(all: Seq<Hit>, considered: Seq<Hit>)
    requires
        candidate::distinct(all),
        considered.len() < all.len(),
    ensures
        exists|j: int|
            0 <= j < all.len() && !candidate::holds_id(considered, (#[trigger] all[j]).id),
{
    let ids = all.map_values(|h: Hit| h.id);
    let theirs = considered.map_values(|h: Hit| h.id);
    assert(ids.no_duplicates());
    ids.unique_seq_to_set();
    theirs.lemma_cardinality_of_set();
    vstd::seq_lib::seq_to_set_is_finite(theirs);
    if forall|j: int|
        0 <= j < all.len() ==> candidate::holds_id(considered, (#[trigger] all[j]).id) {
        assert(ids.to_set().subset_of(theirs.to_set())) by {
            assert forall|id: u64| ids.to_set().contains(id) implies theirs.to_set().contains(id) by {
                let j = choose|j: int| 0 <= j < ids.len() && ids[j] == id;
                assert(candidate::holds_id(considered, all[j].id));
                let i = choose|i: int|
                    0 <= i < considered.len() && (#[trigger] considered[i]).id == all[j].id;
                assert(theirs[i] == id);
                assert(theirs.contains(id));
            }
        }
        vstd::set_lib::lemma_len_subset(ids.to_set(), theirs.to_set());
    }
}

impl<'a, D: Distance> SPFresh<'a, D> {
    /// A centroid too far away to search its posting, `d0` being the distance of the
    /// nearest one.
    pub open spec fn too_far(&self, d0: u32, d: u32) -> bool {
        &&& word::magnitude(self.cfg.probe_ratio) < word::INFINITY
        &&& word::at_most(word::ZERO, d0)
        &&& word::less(
            self.dist.product_spec(d0, word::max_of(self.cfg.probe_ratio, word::ONE)),
            d,
        )
    }

    /// Where, from position `i` on, the first centroid stands that is too far away.
    pub open spec fn reach(&self, probes: Seq<Candidate>, i: int) -> int
        decreases probes.len() - i,
    {
        if i >= probes.len() || self.too_far(probes[0].dist, probes[i].dist) {
            i
        } else {
            self.reach(probes, i + 1)
        }
    }

    /// The postings that are searched: those before the first that is too far away.
    pub open spec fn within(&self, probes: Seq<Candidate>) -> Seq<Candidate> {
        probes.take(self.reach(probes, 0))
    }

    /// The first `upto` entries of a block, without deleted ones, scored.
    pub open spec fn scan_block(&self, b: int, upto: int, score: Score) -> Seq<Hit>
        decreases upto,
    {
        if upto <= 0 {
            Seq::empty()
        } else {
            let e = self.posting(b)[upto - 1];
            let before = self.scan_block(b, upto - 1, score);
            if self.deleted@.contains(e.id) {
                before
            } else {
                before.push(Hit { dist: score(b, e), id: e.id })
            }
        }
    }

    /// The entries of the first `upto` postings, without deleted ones, scored.
    pub open spec fn scan(&self, probes: Seq<Candidate>, upto: int, score: Score) -> Seq<Hit>
        decreases upto,
    {
        if upto <= 0 {
            Seq::empty()
        } else {
            let b = probes[upto - 1].id as int;
            self.scan(probes, upto - 1, score) + self.scan_block(
                b,
                self.posting(b).len() as int,
                score,
            )
        }
    }

    /// What was scanned after `p` postings and `i` entries of the next.
    pub open spec fn scanned(&self, probes: Seq<Candidate>, p: int, i: int, score: Score) -> Seq<
        Hit,
    > {
        self.scan(probes, p, score) + self.scan_block(probes[p].id as int, i, score)
    }

    /// The distance between a query and an entry, by its code.
    pub open spec fn entry_dist(&self, query: Seq<u32>, b: int, e: Entry) -> u32 {
        match self.quantizer {
            None => self.dist.eval_spec(query, self.raw_at(e.id as int)),
            Some(QuantizerState::RaBitQ(q)) => self.dist.eval_spec(
                query,
                q.decoded(self.dist, e.code, self.centroid(b)),
            ),
            Some(q) => q.distance_of(self.dist, query, e.code),
        }
    }

    /// Scores by code.
    pub open spec fn by_code(&self, query: Seq<u32>) -> Score {
        |b: int, e: Entry| self.entry_dist(query, b, e)
    }

    /// Whether the best by code are compared again by their vectors.
    pub open spec fn reranks(&self) -> bool {
        self.quantizer is Some && self.cfg.rerank_size > 0
    }

    /// How many of the best by code are looked at.
    pub open spec fn shortlist(&self, k: int) -> int {
        if self.reranks() && self.cfg.rerank_size > k {
            self.cfg.rerank_size as int
        } else {
            k
        }
    }

    /// The hits with the distances of their vectors, where these are compared.
    pub open spec fn rescored(&self, query: Seq<u32>, kept: Seq<Hit>) -> Seq<Hit> {
        if self.reranks() {
            Seq::new(
                kept.len(),
                |i: int|
                    Hit {
                        dist: self.dist.eval_spec(query, self.raw_at(kept[i].id as int)),
                        id: kept[i].id,
                    },
            )
        } else {
            kept
        }
    }

    /// What a search by code returns: of the entries scanned the best by code are kept,
    /// and the nearest `k` of these returned.
    pub open spec fn found_by_code(
        &self,
        query: Seq<u32>,
        k: int,
        probes: Seq<Candidate>,
        kept: Seq<Hit>,
        r: Seq<Hit>,
    ) -> bool {
        let near = self.within(probes);
        &&& select::is_best(
            self.scan(near, near.len() as int, self.by_code(query)),
            self.shortlist(k),
            kept,
        )
        &&& kept == select::gathered(
            self.scan(near, near.len() as int, self.by_code(query)),
            self.shortlist(k),
        )
        &&& candidate::lowest(self.rescored(query, kept), k, r)
    }

    /// Scores by the squared distance of the vector.
    pub open spec fn by_square(&self, query: Seq<u32>) -> Score {
        |b: int, e: Entry| self.dist.square_l2_spec(query, self.raw_at(e.id as int))
    }

    /// Scores by the lower bound that the code gives.
    pub open spec fn by_bound(&self, query: Seq<u32>) -> Score {
        |b: int, e: Entry|
            match self.quantizer {
                Some(QuantizerState::RaBitQ(q)) => lower_bound(
                    q,
                    self.dist,
                    query,
                    self.centroid(b),
                    e.code,
                ),
                _ => word::ZERO,
            }
    }

    /// Squared distances as the metric gives them.
    pub open spec fn unsquared(&self, kept: Seq<Hit>) -> Seq<Hit> {
        if self.dist.kind_spec() == MetricKind::L2 {
            Seq::new(
                kept.len(),
                |i: int| Hit { dist: self.dist.root_spec(kept[i].dist), id: kept[i].id },
            )
        } else {
            kept
        }
    }

    /// What a search by bounds returns: the best `k` of the entries considered, by the
    /// distances of their vectors.
    pub open spec fn found_by_bound(
        &self,
        query: Seq<u32>,
        k: int,
        probes: Seq<Candidate>,
        considered: Seq<Hit>,
        kept: Seq<Hit>,
        r: Seq<Hit>,
    ) -> bool {
        let near = self.within(probes);
        &&& is_pruned(
            self.scan(near, near.len() as int, self.by_square(query)),
            self.scan(near, near.len() as int, self.by_bound(query)),
            k,
            considered,
            kept,
        )
        &&& kept == select::gathered_under(
            self.scan(near, near.len() as int, self.by_square(query)),
            self.scan(near, near.len() as int, self.by_bound(query)),
            k,
        )
        &&& candidate::same_items(r, self.unsquared(kept))
        &&& candidate::ranked(r)
        &&& r == candidate::sorted(self.unsquared(kept))
    }

    /// Whether searches go by bounds: codes of one bit per component, and a Euclidean
    /// metric.
    pub open spec fn goes_by_bounds(&self) -> bool {
        &&& self.quantizer matches Some(QuantizerState::RaBitQ(_))
        &&& self.dist.kind_spec() != MetricKind::Other
    }

    /// Different postings.
    pub open spec fn are_postings(&self, probes: Seq<Candidate>) -> bool {
        &&& candidate::distinct(probes)
        &&& forall|i: int|
            0 <= i < probes.len() ==> self.is_posting((#[trigger] probes[i]).id as int)
    }

    /// Vectors that may be returned: stored, not deleted, each once.
    pub open spec fn are_answers(&self, hits: Seq<Hit>) -> bool {
        &&& candidate::distinct(hits)
        &&& forall|i: int|
            0 <= i < hits.len() ==> (#[trigger] hits[i]).id < self.next_id
                && !self.deleted@.contains(hits[i].id)
    }

    proof fn lemma_scan_block(&self, b: int, upto: int, score: Score)
        requires
            self.wf(),
            self.is_posting(b),
            0 <= upto <= self.posting(b).len(),
        ensures
            candidate::distinct(self.scan_block(b, upto, score)),
            forall|m: int|
                0 <= m < self.scan_block(b, upto, score).len() ==> {
                    let h = #[trigger] self.scan_block(b, upto, score)[m];
                    &&& !self.deleted@.contains(h.id)
                    &&& exists|i: int|
                        0 <= i < upto && (#[trigger] self.posting(b)[i]).id == h.id
                },
        decreases upto,
    {
        if upto > 0 {
            self.lemma_scan_block(b, upto - 1, score);
            let before = self.scan_block(b, upto - 1, score);
            let now = self.scan_block(b, upto, score);
            let e = self.posting(b)[upto - 1];
            assert forall|m: int| 0 <= m < now.len() implies {
                let h = #[trigger] now[m];
                &&& !self.deleted@.contains(h.id)
                &&& exists|i: int| 0 <= i < upto && (#[trigger] self.posting(b)[i]).id == h.id
            } by {
                if m < before.len() {
                    assert(now[m] == before[m]);
                    let i = choose|i: int|
                        0 <= i < upto - 1 && (#[trigger] self.posting(b)[i]).id == before[m].id;
                    assert(self.posting(b)[i].id == now[m].id);
                } else {
                    assert(self.posting(b)[upto - 1].id == now[m].id);
                }
            }
            assert forall|x: int, y: int| 0 <= x < y < now.len() implies (#[trigger] now[x]).id != (
            #[trigger] now[y]).id by {
                assert(now[x] == before[x]);
                if y < before.len() {
                    assert(now[y] == before[y]);
                } else {
                    let i = choose|i: int|
                        0 <= i < upto - 1 && (#[trigger] self.posting(b)[i]).id == before[x].id;
                    if self.posting(b)[i].id == self.posting(b)[upto - 1].id {
                        assert(i == upto - 1);
                    }
                }
            }
        }
    }

    /// Whether one of the first `upto` postings holds an entry of a vector.
    spec fn among(&self, probes: Seq<Candidate>, upto: int, id: u64) -> bool {
        exists|p: int| 0 <= p < upto && #[trigger] self.holds_id(probes[p].id as int, id)
    }

    /// What was scanned are answers, from the postings that were reached.
    proof fn lemma_scanned(&self, probes: Seq<Candidate>, p: int, i: int, score: Score)
        requires
            self.wf(),
            self.are_postings(probes),
            0 <= p < probes.len(),
            0 <= i <= self.posting(probes[p].id as int).len(),
        ensures
            self.are_answers(self.scanned(probes, p, i, score)),
            forall|m: int|
                0 <= m < self.scanned(probes, p, i, score).len() ==> self.among(
                    probes,
                    p + 1,
                    (#[trigger] self.scanned(probes, p, i, score)[m]).id,
                ),
            i < self.posting(probes[p].id as int).len() ==> !candidate::holds_id(
                self.scanned(probes, p, i, score),
                self.posting(probes[p].id as int)[i].id,
            ),
        decreases p, 1int,
    {
        let b = probes[p].id as int;
        assert(self.is_posting(b));
        self.lemma_scan_upto(probes, p, score);
        self.lemma_scan_block(b, i, score);
        let before = self.scan(probes, p, score);
        let part = self.scan_block(b, i, score);
        let all = self.scanned(probes, p, i, score);
        assert forall|m: int| 0 <= m < part.len() implies self.holds_id(
            b,
            (#[trigger] part[m]).id,
        ) && part[m].id < self.next_id by {
            let j = choose|j: int|
                0 <= j < i && (#[trigger] self.posting(b)[j]).id == part[m].id;
            assert(self.posting(b)[j].id < self.next_id);
        }
        assert forall|m: int, id: u64| 0 <= m < before.len() && #[trigger] self.holds_id(
            b,
            id,
        ) implies (#[trigger] before[m]).id != id by {
            assert(self.among(probes, p, before[m].id));
            let q = choose|q: int|
                0 <= q < p && #[trigger] self.holds_id(probes[q].id as int, before[m].id);
            if before[m].id == id {
                self.lemma_one_posting(probes[q].id as int, b, id);
                assert(probes[q].id != probes[p].id);
            }
        }
        assert forall|m: int| 0 <= m < all.len() implies self.among(probes, p + 1, (
        #[trigger] all[m]).id) && all[m].id < self.next_id && !self.deleted@.contains(all[m].id) by {
            if m < before.len() {
                assert(all[m] == before[m]);
                let q = choose|q: int|
                    0 <= q < p && #[trigger] self.holds_id(probes[q].id as int, before[m].id);
                assert(self.holds_id(probes[q].id as int, all[m].id));
            } else {
                assert(all[m] == part[m - before.len()]);
                assert(self.holds_id(probes[p].id as int, all[m].id));
            }
        }
        assert forall|x: int, y: int| 0 <= x < y < all.len() implies (#[trigger] all[x]).id != (
        #[trigger] all[y]).id by {
            if y < before.len() {
                assert(all[x] == before[x] && all[y] == before[y]);
            } else if x >= before.len() {
                assert(all[x] == part[x - before.len()] && all[y] == part[y - before.len()]);
            } else {
                assert(all[x] == before[x] && all[y] == part[y - before.len()]);
                assert(self.holds_id(b, all[y].id));
            }
        }
        if i < self.posting(b).len() {
            let id = self.posting(b)[i].id;
            assert(self.holds_id(b, id));
            if candidate::holds_id(all, id) {
                let m = choose|m: int| 0 <= m < all.len() && (#[trigger] all[m]).id == id;
                if m < before.len() {
                    assert(all[m] == before[m]);
                } else {
                    assert(all[m] == part[m - before.len()]);
                    let j = choose|j: int|
                        0 <= j < i && (#[trigger] self.posting(b)[j]).id == part[m
                            - before.len()].id;
                    assert(self.posting(b)[j].id == self.posting(b)[i].id);
                }
            }
        }
    }

    proof fn lemma_scan_upto(&self, probes: Seq<Candidate>, upto: int, score: Score)
        requires
            self.wf(),
            self.are_postings(probes),
            0 <= upto <= probes.len(),
        ensures
            self.are_answers(self.scan(probes, upto, score)),
            forall|m: int|
                0 <= m < self.scan(probes, upto, score).len() ==> self.among(
                    probes,
                    upto,
                    (#[trigger] self.scan(probes, upto, score)[m]).id,
                ),
        decreases upto, 0int,
    {
        if upto > 0 {
            let b = probes[upto - 1].id as int;
            assert(self.is_posting(b));
            self.lemma_scanned(probes, upto - 1, self.posting(b).len() as int, score);
            assert(self.scan(probes, upto, score) == self.scanned(
                probes,
                upto - 1,
                self.posting(b).len() as int,
                score,
            ));
        }
    }

    proof fn lemma_one_posting(&self, b: int, c: int, id: u64)
        requires
            self.wf(),
            self.holds_id(b, id),
            self.holds_id(c, id),
        ensures
            b == c,
    {
        let i = choose|i: int|
            0 <= i < self.posting(b).len() && (#[trigger] self.posting(b)[i]).id == id;
        let j = choose|j: int|
            0 <= j < self.posting(c).len() && (#[trigger] self.posting(c)[j]).id == id;
        assert(self.posting(b)[i].id == self.posting(c)[j].id);
    }

    pub(crate) proof fn lemma_reach(&self, probes: Seq<Candidate>, i: int)
        requires
            0 <= i <= probes.len(),
        ensures
            i <= self.reach(probes, i) <= probes.len(),
        decreases probes.len() - i,
    {
        if i < probes.len() && !self.too_far(probes[0].dist, probes[i].dist) {
            self.lemma_reach(probes, i + 1);
        }
    }

    /// Drops the postings that are too far away.
    fn cut_far(&self, probes: Vec<Candidate>) -> (r: Vec<Candidate>)
        requires
            self.are_postings(probes@),
        ensures
            r@ == self.within(probes@),
            self.are_postings(r@),
            probes@.len() > 0 && !self.too_far(probes@[0].dist, probes@[0].dist) ==> r@.len() > 0,
    {
        let ghost all = probes@;
        let mut probes = probes;
        let n: usize = probes.len();
        let mut i: usize = 0;
        while i < n && !(word::finite(self.cfg.probe_ratio) && word::le(word::ZERO, probes[0].dist)
            && word::lt(
            self.dist.product(probes[0].dist, word::max(self.cfg.probe_ratio, word::ONE)),
            probes[i].dist,
        ))
            invariant
                i <= n == all.len(),
                probes@ == all,
                self.reach(all, 0) == self.reach(all, i as int),
            decreases n - i,
        {
            i = i + 1;
        }
        probes.truncate(i);
        proof {
            self.lemma_reach(all, 0);
            assert(probes@ =~= self.within(all));
        }
        probes
    }

    /// An entry's code has the form that the quantizer asks for.
    proof fn lemma_is_code(&self, b: int, i: int)
        requires
            self.wf(),
            self.is_posting(b),
            0 <= i < self.posting(b).len(),
            self.posting(b)[i].code.len() == self.postings.code_size,
        ensures
            self.quantizer matches Some(q) ==> q.is_code(self.posting(b)[i].code),
    {
        let e = self.posting(b)[i];
        assert(e.code == self.code_for(self.raw_at(e.id as int), self.centroid(b)));
        match self.quantizer {
            Some(QuantizerState::PQ(q)) => {
                q.lemma_code(self.dist, self.raw_at(e.id as int));
            },
            _ => {},
        }
    }

    /// The distance between a query and an entry, by its code.
    fn code_dist(&self, query: &[u32], prep: &Option<Prepared>, b: u32, i: usize) -> (d: u32)
        requires
            self.wf(),
            query@.len() == self.dim,
            self.is_posting(b as int),
            i < self.posting(b as int).len(),
            self.quantizer matches Some(q) ==> (prep matches Some(p) && q.is_prepared(
                self.dist,
                query@,
                &p,
            )),
        ensures
            d == self.entry_dist(query@, b as int, self.posting(b as int)[i as int]),
    {
        let code = self.postings.code(b as usize, i);
        proof {
            self.lemma_is_code(b as int, i as int);
        }
        let ghost e = self.posting(b as int)[i as int];
        match (&self.quantizer, prep) {
            (Some(QuantizerState::RaBitQ(q)), _) => {
                let v = q.decode_with(
                    self.dist,
                    code,
                    self.block_centroid[b as usize].as_slice(),
                );
                self.dist.eval(query, v.as_slice())
            },
            (Some(q), Some(p)) => q.distance(self.dist, query, p, code),
            _ => {
                let v = bytes::read_words(code, 0, self.dim);
                proof {
                    let raw = self.raw_at(e.id as int);
                    assert(e.id < self.next_id);
                    assert(e.code == bytes::word_bytes(raw));
                    crate::pq::lemma_flat_bounds(e.id as int, self.next_id as int, self.dim as int);
                    bytes::lemma_words_of_word_bytes(Seq::empty(), raw, Seq::empty());
                    assert(Seq::<u8>::empty() + e.code + Seq::<u8>::empty() =~= e.code);
                }
                self.dist.eval(query, v.as_slice())
            },
        }
    }

    /// Searches by code.
    #[verifier::rlimit(40)]
    fn search_codes(&self, query: &[u32], k: usize, probes: &Vec<Candidate>) -> (r: (
        Vec<Hit>,
        Ghost<Seq<Hit>>,
    ))
        requires
            self.wf(),
            query@.len() == self.dim,
            self.are_postings(probes@),
            self.shortlist(k as int) > 0,
        ensures
            select::is_best(
                self.scan(probes@, probes@.len() as int, self.by_code(query@)),
                self.shortlist(k as int),
                r.1@,
            ),
            r.1@ == select::gathered(
                self.scan(probes@, probes@.len() as int, self.by_code(query@)),
                self.shortlist(k as int),
            ),
            candidate::lowest(self.rescored(query@, r.1@), k as int, r.0@),
            self.are_answers(r.0@),
            r.0@.len() <= k,
    {
        broadcast use vstd::std_specs::hash::group_hash_axioms;

        let rerank = self.quantizer.is_some() && self.cfg.rerank_size > 0;
        let want: usize = if rerank && self.cfg.rerank_size > k {
            self.cfg.rerank_size
        } else {
            k
        };
        let prep: Option<Prepared> = match &self.quantizer {
            Some(q) => Some(q.prepare(self.dist, query)),
            None => None,
        };
        let ghost score = self.by_code(query@);
        let mut best = Best::new(want);
        let total: usize = probes.len();
        let mut p: usize = 0;
        while p < total
            invariant
                p <= total == probes@.len(),
                self.wf(),
                query@.len() == self.dim,
                self.are_postings(probes@),
                score == self.by_code(query@),
                self.quantizer matches Some(q) ==> (prep matches Some(x) && q.is_prepared(
                    self.dist,
                    query@,
                    &x,
                )),
                best.wf(),
                best.want() == want,
                select::is_best(self.scan(probes@, p as int, score), want as int, best.kept()),
                best.kept() == select::gathered(self.scan(probes@, p as int, score), want as int),
            decreases total - p,
        {
            let b: u32 = probes[p].id;
            assert(self.is_posting(b as int));
            let n: usize = self.postings.len(b as usize);
            let mut i: usize = 0;
            assert(self.scanned(probes@, p as int, 0, score) =~= self.scan(
                probes@,
                p as int,
                score,
            ));
            while i < n
                invariant
                    p < total == probes@.len(),
                    b == probes@[p as int].id,
                    i <= n == self.posting(b as int).len(),
                    self.wf(),
                    self.is_posting(b as int),
                    query@.len() == self.dim,
                    self.are_postings(probes@),
                    score == self.by_code(query@),
                    self.quantizer matches Some(q) ==> (prep matches Some(x) && q.is_prepared(
                        self.dist,
                        query@,
                        &x,
                    )),
                    best.wf(),
                    best.want() == want,
                    select::is_best(
                        self.scanned(probes@, p as int, i as int, score),
                        want as int,
                        best.kept(),
                    ),
                    best.kept() == select::gathered(
                        self.scanned(probes@, p as int, i as int, score),
                        want as int,
                    ),
                decreases n - i,
            {
                broadcast use vstd::std_specs::hash::group_hash_axioms;

                let id: u64 = self.postings.id(b as usize, i);
                let ghost all = self.scanned(probes@, p as int, i as int, score);
                let ghost more = self.scanned(probes@, p as int, i + 1, score);
                if !self.deleted.contains(&id) {
                    let d: u32 = self.code_dist(query, &prep, b, i);
                    let c = Hit { dist: d, id };
                    proof {
                        self.lemma_scanned(probes@, p as int, i as int, score);
                        assert(more =~= all.push(c));
                        assert(more.drop_last() =~= all);
                    }
                    best.offer(c, Ghost(all));
                } else {
                    assert(more =~= all);
                }
                i = i + 1;
            }
            assert(self.scanned(probes@, p as int, n as int, score) == self.scan(
                probes@,
                p + 1,
                score,
            ));
            p = p + 1;
        }
        let kept = best.into_vec();
        let ghost best_by_code = kept@;
        proof {
            self.lemma_scan_upto(probes@, total as int, score);
            self.lemma_answers(self.scan(probes@, total as int, score), kept@);
        }
        let out = if rerank {
            self.rescore(query, &kept)
        } else {
            kept
        };
        proof {
            assert(out@ =~= self.rescored(query@, best_by_code));
            assert(self.are_answers(out@)) by {
                assert forall|i: int, j: int| 0 <= i < j < out@.len() implies (
                #[trigger] out@[i]).id != (#[trigger] out@[j]).id by {
                    assert(best_by_code[i].id != best_by_code[j].id);
                }
                assert forall|i: int| 0 <= i < out@.len() implies (#[trigger] out@[i]).id
                    < self.next_id && !self.deleted@.contains(out@[i].id) by {
                    assert(best_by_code[i].id < self.next_id);
                }
            }
        }
        let ghost listed = out@;
        let r = take_lowest(out, k);
        proof {
            self.lemma_lowest(listed, k as int, r@);
        }
        (r, Ghost(best_by_code))
    }

    /// The hits with the distances of their vectors.
    fn rescore(&self, query: &[u32], kept: &Vec<Hit>) -> (r: Vec<Hit>)
        requires
            self.wf(),
            query@.len() == self.dim,
            self.are_answers(kept@),
        ensures
            r@.len() == kept@.len(),
            forall|i: int|
                0 <= i < r@.len() ==> #[trigger] r@[i] == (Hit {
                    dist: self.dist.eval_spec(query@, self.raw_at(kept@[i].id as int)),
                    id: kept@[i].id,
                }),
    {
        let mut r: Vec<Hit> = Vec::new();
        let n: usize = kept.len();
        let mut i: usize = 0;
        while i < n
            invariant
                i <= n == kept@.len(),
                self.wf(),
                query@.len() == self.dim,
                self.are_answers(kept@),
                r@.len() == i,
                forall|j: int|
                    0 <= j < i ==> #[trigger] r@[j] == (Hit {
                        dist: self.dist.eval_spec(query@, self.raw_at(kept@[j].id as int)),
                        id: kept@[j].id,
                    }),
            decreases n - i,
        {
            let id: u64 = kept[i].id;
            let d: u32 = self.dist.eval(query, self.raw(id));
            r.push(Hit { dist: d, id });
            i = i + 1;
        }
        r
    }

    /// What is kept of answers are answers.
    proof fn lemma_answers(&self, all: Seq<Hit>, kept: Seq<Hit>)
        requires
            self.are_answers(all),
            candidate::distinct(kept),
            forall|i: int| 0 <= i < kept.len() ==> all.contains(#[trigger] kept[i]),
        ensures
            self.are_answers(kept),
    {
        assert forall|i: int| 0 <= i < kept.len() implies (#[trigger] kept[i]).id < self.next_id
            && !self.deleted@.contains(kept[i].id) by {
            assert(all.contains(kept[i]));
            let j = choose|j: int| 0 <= j < all.len() && all[j] == kept[i];
            assert(all[j].id < self.next_id);
        }
    }

    proof fn lemma_lowest(&self, all: Seq<Hit>, k: int, r: Seq<Hit>)
        requires
            self.are_answers(all),
            0 <= k,
            candidate::lowest(all, k, r),
        ensures
            self.are_answers(r),
            r.len() <= k,
            r.len() == if all.len() <= k {
                all.len() as int
            } else {
                k
            },
            forall|i: int| 0 <= i < r.len() ==> all.contains(#[trigger] r[i]),
    {
        let sorted = choose|sorted: Seq<Hit>| #[trigger]
            candidate::same_items(sorted, all) && candidate::ranked(sorted) && r
                == candidate::first(sorted, k);
        candidate::lemma_same_items(all, sorted);
        assert forall|i: int| 0 <= i < r.len() implies all.contains(#[trigger] r[i]) by {
            assert(r[i] == sorted[i]);
            assert(sorted.contains(sorted[i]));
        }
        assert(candidate::distinct(r)) by {
            assert forall|i: int, j: int| 0 <= i < j < r.len() implies (#[trigger] r[i]).id != (
            #[trigger] r[j]).id by {
                assert(r[i] == sorted[i] && r[j] == sorted[j]);
            }
        }
        self.lemma_answers(all, r);
    }

    /// Searches by bounds.
    #[verifier::rlimit(40)]
    fn search_rabitq(&self, rq: &RaBitQ, query: &[u32], k: usize, probes: &Vec<Candidate>) -> (r: (
        Vec<Hit>,
        Ghost<(Seq<Hit>, Seq<Hit>)>,
    ))
        requires
            self.wf(),
            self.quantizer == Some(QuantizerState::RaBitQ(*rq)),
            query@.len() == self.dim,
            self.are_postings(probes@),
            k > 0,
        ensures
            is_pruned(
                self.scan(probes@, probes@.len() as int, self.by_square(query@)),
                self.scan(probes@, probes@.len() as int, self.by_bound(query@)),
                k as int,
                r.1@.0,
                r.1@.1,
            ),
            r.1@.1 == select::gathered_under(
                self.scan(probes@, probes@.len() as int, self.by_square(query@)),
                self.scan(probes@, probes@.len() as int, self.by_bound(query@)),
                k as int,
            ),
            candidate::same_items(r.0@, self.unsquared(r.1@.1)),
            candidate::ranked(r.0@),
            r.0@ == candidate::sorted(self.unsquared(r.1@.1)),
            self.are_answers(r.0@),
            r.0@.len() <= k,
    {
        broadcast use vstd::std_specs::hash::group_hash_axioms;

        let ghost f = self.by_square(query@);
        let ghost g = self.by_bound(query@);
        let mut best = Best::new(k);
        let ghost mut considered: Seq<Hit> = Seq::empty();
        let total: usize = probes.len();
        let mut p: usize = 0;
        while p < total
            invariant
                p <= total == probes@.len(),
                self.wf(),
                self.quantizer == Some(QuantizerState::RaBitQ(*rq)),
                query@.len() == self.dim,
                self.are_postings(probes@),
                f == self.by_square(query@),
                g == self.by_bound(query@),
                best.wf(),
                best.want() == k,
                k > 0,
                is_filtered(
                    self.scan(probes@, p as int, f),
                    self.scan(probes@, p as int, g),
                    k as int,
                    considered,
                    best.kept(),
                ),
                best.kept() == select::gathered_under(
                    self.scan(probes@, p as int, f),
                    self.scan(probes@, p as int, g),
                    k as int,
                ),
            decreases total - p,
        {
            let b: u32 = probes[p].id;
            assert(self.is_posting(b as int));
            let centroid = self.block_centroid[b as usize].as_slice();
            let qb = rq.query_with(self.dist, query, centroid);
            let n: usize = self.postings.len(b as usize);
            let mut i: usize = 0;
            assert(self.scanned(probes@, p as int, 0, f) =~= self.scan(probes@, p as int, f));
            assert(self.scanned(probes@, p as int, 0, g) =~= self.scan(probes@, p as int, g));
            while i < n
                invariant
                    p < total == probes@.len(),
                    b == probes@[p as int].id,
                    i <= n == self.posting(b as int).len(),
                    self.wf(),
                    self.is_posting(b as int),
                    self.quantizer == Some(QuantizerState::RaBitQ(*rq)),
                    rq.is_query(self.dist, query@, self.centroid(b as int), &qb),
                    query@.len() == self.dim,
                    self.are_postings(probes@),
                    f == self.by_square(query@),
                    g == self.by_bound(query@),
                    best.wf(),
                    best.want() == k,
                    k > 0,
                    is_filtered(
                        self.scanned(probes@, p as int, i as int, f),
                        self.scanned(probes@, p as int, i as int, g),
                        k as int,
                        considered,
                        best.kept(),
                    ),
                    best.kept() == select::gathered_under(
                        self.scanned(probes@, p as int, i as int, f),
                        self.scanned(probes@, p as int, i as int, g),
                        k as int,
                    ),
                decreases n - i,
            {
                broadcast use vstd::std_specs::hash::group_hash_axioms;

                let id: u64 = self.postings.id(b as usize, i);
                let ghost all = self.scanned(probes@, p as int, i as int, f);
                let ghost bounds = self.scanned(probes@, p as int, i as int, g);
                let ghost more = self.scanned(probes@, p as int, i + 1, f);
                let ghost more_bounds = self.scanned(probes@, p as int, i + 1, g);
                if !self.deleted.contains(&id) {
                    let code = self.postings.code(b as usize, i);
                    proof {
                        self.lemma_scanned(probes@, p as int, i as int, f);
                        rq.lemma_query_fits(self.dist, query@, self.centroid(b as int), &qb);
                        lemma_bounds_agree(
                            *rq,
                            self.dist,
                            query@,
                            self.centroid(b as int),
                            code@,
                            qb,
                        );
                        assert(self.posting(b as int)[i as int].id < self.next_id);
                    }
                    let (est, err) = rq.distance_with_bound(self.dist, &qb, code);
                    let bound: u32 = self.dist.difference(est, err);
                    let ghost c = Hit { dist: f(b as int, self.posting(b as int)[i as int]), id };
                    assert(more =~= all.push(c));
                    assert(more_bounds =~= bounds.push(Hit { dist: bound, id }));
                    assert(more.drop_last() =~= all);
                    assert(more_bounds.drop_last() =~= bounds);
                    let ghost was = best.kept();
                    if word::lt(bound, best.bar()) {
                        let exact: u32 = self.dist.square_l2(query, self.raw(id));
                        let hit = Hit { dist: exact, id };
                        assert(hit == c);
                        proof {
                            lemma_not_considered(all, considered, id);
                        }
                        best.offer(hit, Ghost(considered));
                        proof {
                            lemma_considered_one(
                                all,
                                bounds,
                                k as int,
                                considered,
                                was,
                                c,
                                Hit { dist: bound, id },
                                best.kept(),
                            );
                            considered = considered.push(c);
                        }
                    } else {
                        proof {
                            lemma_passed_over(
                                all,
                                bounds,
                                k as int,
                                considered,
                                was,
                                c,
                                Hit { dist: bound, id },
                            );
                        }
                    }
                } else {
                    assert(more =~= all);
                    assert(more_bounds =~= bounds);
                }
                i = i + 1;
            }
            assert(self.scanned(probes@, p as int, n as int, f) == self.scan(probes@, p + 1, f));
            assert(self.scanned(probes@, p as int, n as int, g) == self.scan(probes@, p + 1, g));
            p = p + 1;
        }
        let ghost all = self.scan(probes@, total as int, f);
        let ghost bounds = self.scan(probes@, total as int, g);
        proof {
            if best.kept().len() >= k {
                best.lemma_bar();
            }
            assert(is_pruned(all, bounds, k as int, considered, best.kept()));
        }
        let kept = best.into_vec();
        let ghost nearest = kept@;
        proof {
            self.lemma_scan_upto(probes@, total as int, f);
            assert forall|i: int| 0 <= i < kept@.len() implies all.contains(#[trigger] kept@[i]) by {
                assert(considered.contains(kept@[i]));
                let m = choose|m: int| 0 <= m < considered.len() && considered[m] == kept@[i];
                assert(all.contains(considered[m]));
            }
            self.lemma_answers(all, kept@);
        }
        let out = match self.dist.kind() {
            MetricKind::L2 => self.unsquare(&kept),
            _ => kept,
        };
        let ghost listed = out@;
        proof {
            assert(listed =~= self.unsquared(nearest));
            assert(self.are_answers(listed)) by {
                assert forall|i: int, j: int| 0 <= i < j < listed.len() implies (
                #[trigger] listed[i]).id != (#[trigger] listed[j]).id by {
                    assert(nearest[i].id != nearest[j].id);
                }
                assert forall|i: int| 0 <= i < listed.len() implies (#[trigger] listed[i]).id
                    < self.next_id && !self.deleted@.contains(listed[i].id) by {
                    assert(nearest[i].id < self.next_id);
                }
            }
        }
        let r = sort(out);
        proof {
            candidate::lemma_same_items(listed, r@);
            assert forall|i: int| 0 <= i < r@.len() implies listed.contains(#[trigger] r@[i]) by {
                assert(r@.contains(r@[i]));
            }
            self.lemma_answers(listed, r@);
        }
        (r, Ghost((considered, nearest)))
    }

    /// The hits with the roots of their distances.
    fn unsquare(&self, kept: &Vec<Hit>) -> (r: Vec<Hit>)
        ensures
            r@.len() == kept@.len(),
            forall|i: int|
                0 <= i < r@.len() ==> #[trigger] r@[i] == (Hit {
                    dist: self.dist.root_spec(kept@[i].dist),
                    id: kept@[i].id,
                }),
    {
        let mut r: Vec<Hit> = Vec::new();
        let n: usize = kept.len();
        let mut i: usize = 0;
        while i < n
            invariant
                i <= n == kept@.len(),
                r@.len() == i,
                forall|j: int|
                    0 <= j < i ==> #[trigger] r@[j] == (Hit {
                        dist: self.dist.root_spec(kept@[j].dist),
                        id: kept@[j].id,
                    }),
            decreases n - i,
        {
            r.push(Hit { dist: self.dist.root(kept[i].dist), id: kept[i].id });
            i = i + 1;
        }
        r
    }
}

/// As `is_pruned`, by the bar that the kept hits set.
spec fn is_filtered(
    all: Seq<Hit>,
    bounds: Seq<Hit>,
    k: int,
    considered: Seq<Hit>,
    kept: Seq<Hit>,
) -> bool {
    &&& bounds.len() == all.len()
    &&& candidate::distinct(considered)
    &&& select::is_best(considered, k, kept)
    &&& forall|i: int| 0 <= i < considered.len() ==> all.contains(#[trigger] considered[i])
    &&& forall|j: int|
        0 <= j < all.len() && !candidate::holds_id(considered, (#[trigger] all[j]).id) ==> {
            ||| !word::less(bounds[j].dist, word::INFINITY)
            ||| kept.len() == k && (select::numeric(considered) ==> word::order(
                select::bar(k, kept),
            ) <= word::order(bounds[j].dist))
        }
}

proof fn lemma_not_considered(all: Seq<Hit>, considered: Seq<Hit>, id: u64)
    requires
        !candidate::holds_id(all, id),
        forall|i: int| 0 <= i < considered.len() ==> all.contains(#[trigger] considered[i]),
    ensures
        !candidate::holds_id(considered, id),
{
    if candidate::holds_id(considered, id) {
        let i = choose|i: int| 0 <= i < considered.len() && (#[trigger] considered[i]).id == id;
        assert(all.contains(considered[i]));
        let j = choose|j: int| 0 <= j < all.len() && all[j] == considered[i];
        assert(all[j].id == id);
    }
}

proof fn lemma_pushed_contains(all: Seq<Hit>, c: Hit)
    ensures
        all.push(c).contains(c),
        forall|h: Hit| #[trigger] all.contains(h) ==> all.push(c).contains(h),
{
    assert(all.push(c)[all.len() as int] == c);
    assert forall|h: Hit| #[trigger] all.contains(h) implies all.push(c).contains(h) by {
        let i = choose|i: int| 0 <= i < all.len() && all[i] == h;
        assert(all.push(c)[i] == h);
    }
}

proof fn lemma_considered_one(
    all: Seq<Hit>,
    bounds: Seq<Hit>,
    k: int,
    considered: Seq<Hit>,
    was: Seq<Hit>,
    c: Hit,
    bound: Hit,
    now: Seq<Hit>,
)
    requires
        is_filtered(all, bounds, k, considered, was),
        !candidate::holds_id(considered, c.id),
        select::is_best(considered.push(c), k, now),
        select::numeric(considered.push(c)) ==> word::order(select::bar(k, now)) <= word::order(
            select::bar(k, was),
        ),
    ensures
        is_filtered(all.push(c), bounds.push(bound), k, considered.push(c), now),
{
    let more = all.push(c);
    let taken = considered.push(c);
    lemma_pushed_contains(all, c);
    assert forall|i: int| 0 <= i < taken.len() implies more.contains(#[trigger] taken[i]) by {
        if i < considered.len() {
            assert(all.contains(considered[i]));
        }
    }
    assert forall|i: int, j: int| 0 <= i < j < taken.len() implies (#[trigger] taken[i]).id != (
    #[trigger] taken[j]).id by {
        assert(taken[i] == considered[i]);
        if j < considered.len() {
            assert(taken[j] == considered[j]);
        }
    }
    assert forall|j: int|
        0 <= j < more.len() && !candidate::holds_id(taken, (#[trigger] more[j]).id) implies {
        ||| !word::less(bounds.push(bound)[j].dist, word::INFINITY)
        ||| now.len() == k && (select::numeric(taken) ==> word::order(select::bar(k, now))
            <= word::order(bounds.push(bound)[j].dist))
    } by {
        if j == all.len() {
            assert(taken[considered.len() as int].id == more[j].id);
        } else {
            assert(more[j] == all[j]);
            if candidate::holds_id(considered, all[j].id) {
                let i = choose|i: int|
                    0 <= i < considered.len() && (#[trigger] considered[i]).id == all[j].id;
                assert(taken[i].id == more[j].id);
            }
            if select::numeric(taken) {
                assert forall|i: int| 0 <= i < considered.len() implies !word::is_nan(
                    (#[trigger] considered[i]).dist,
                ) by {
                    assert(taken[i] == considered[i]);
                }
            }
        }
    }
}

proof fn lemma_passed_over(
    all: Seq<Hit>,
    bounds: Seq<Hit>,
    k: int,
    considered: Seq<Hit>,
    kept: Seq<Hit>,
    c: Hit,
    bound: Hit,
)
    requires
        is_filtered(all, bounds, k, considered, kept),
        k > 0,
        !word::less(bound.dist, select::bar(k, kept)),
    ensures
        is_filtered(all.push(c), bounds.push(bound), k, considered, kept),
{
    let more = all.push(c);
    lemma_pushed_contains(all, c);
    assert forall|i: int| 0 <= i < considered.len() implies more.contains(#[trigger] considered[i]) by {
        assert(all.contains(considered[i]));
    }
    assert forall|j: int|
        0 <= j < more.len() && !candidate::holds_id(considered, (#[trigger] more[j]).id) implies {
        ||| !word::less(bounds.push(bound)[j].dist, word::INFINITY)
        ||| kept.len() == k && (select::numeric(considered) ==> word::order(select::bar(k, kept))
            <= word::order(bounds.push(bound)[j].dist))
    } by {
        if j == all.len() {
            if kept.len() >= k && select::numeric(considered) {
                assert(considered.contains(kept[kept.len() - 1]));
                let m = choose|m: int|
                    0 <= m < considered.len() && considered[m] == kept[kept.len() - 1];
                assert(!word::is_nan(considered[m].dist));
            }
        } else {
            assert(more[j] == all[j]);
        }
    }
}

impl<'a, D: Distance> SPFresh<'a, D> {
    /// How many postings are looked for: one at least, and no more than a beam can be
    /// made wide for.
    pub open spec fn probes_for(n_probe: usize) -> int {
        if n_probe == 0 {
            1
        } else if n_probe > usize::MAX / 16 {
            usize::MAX as int / 16
        } else {
            n_probe as int
        }
    }

    /// A search for `k` vectors looks at some.
    pub open spec fn asks_for_some(&self, k: int) -> bool {
        if self.goes_by_bounds() {
            k > 0
        } else {
            self.shortlist(k) > 0
        }
    }

    /// Whether a search for `k` vectors looks at some.
    pub fn check_k(&self, k: usize) -> (r: bool)
        ensures
            r == self.asks_for_some(k as int),
    {
        let by_bounds = match &self.quantizer {
            Some(QuantizerState::RaBitQ(_)) => self.dist.kind() != MetricKind::Other,
            _ => false,
        };
        k > 0 || (!by_bounds && self.quantizer.is_some() && self.cfg.rerank_size > 0)
    }

    /// What a search for `k` vectors in `n_probe` postings returns.
    pub open spec fn search_result(
        &self,
        query: &[u32],
        k: int,
        n_probe: usize,
        hits: Seq<Hit>,
        probes: Seq<Candidate>,
        r: Seq<Hit>,
    ) -> bool {
        &&& self.nearest_result(query, Self::probes_for(n_probe), hits, probes)
        &&& if self.goes_by_bounds() {
            exists|considered: Seq<Hit>, kept: Seq<Hit>| #[trigger]
                self.found_by_bound(query@, k, probes, considered, kept, r)
        } else {
            exists|kept: Seq<Hit>| #[trigger] self.found_by_code(query@, k, probes, kept, r)
        }
    }

    /// The nearest vectors among those in the `n_probe` nearest postings, nearest first.
    /// Distances are those of codes, unless the best are compared again by their vectors.
    pub fn search_with_dists(&self, query: &[u32], k: usize, n_probe: usize) -> (r: Vec<Hit>)
        requires
            self.wf(),
            query@.len() == self.dim,
            self.asks_for_some(k as int),
        ensures
            exists|hits: Seq<Hit>, probes: Seq<Candidate>| #[trigger]
                self.search_result(query, k as int, n_probe, hits, probes, r@),
            self.are_answers(r@),
            r@.len() <= k,
    {
        let n: usize = if n_probe == 0 {
            1
        } else if n_probe > usize::MAX / 16 {
            usize::MAX / 16
        } else {
            n_probe
        };
        let probes = self.nearest(query, n);
        let ghost all = probes@;
        let ghost hits = choose|hits: Seq<Hit>| #[trigger]
            self.nearest_result(query, n as int, hits, all);
        let near = self.cut_far(probes);
        let by_bounds = match &self.quantizer {
            Some(QuantizerState::RaBitQ(rq)) => if self.dist.kind() != MetricKind::Other {
                Some(rq)
            } else {
                None
            },
            _ => None,
        };
        match by_bounds {
            Some(rq) => {
                let (r, Ghost(state)) = self.search_rabitq(rq, query, k, &near);
                proof {
                    assert(self.found_by_bound(query@, k as int, all, state.0, state.1, r@));
                    assert(self.search_result(query, k as int, n_probe, hits, all, r@));
                }
                r
            },
            None => {
                let (r, Ghost(kept)) = self.search_codes(query, k, &near);
                proof {
                    assert(self.found_by_code(query@, k as int, all, kept, r@));
                    assert(self.search_result(query, k as int, n_probe, hits, all, r@));
                }
                r
            },
        }
    }

    /// The ids of the nearest vectors, nearest first.
    pub fn search(&self, query: &[u32], k: usize, n_probe: usize) -> (r: Vec<u64>)
        requires
            self.wf(),
            query@.len() == self.dim,
            self.asks_for_some(k as int),
        ensures
            self.found_ids(query, k as int, n_probe, r@),
            r@.len() <= k,
            forall|i: int|
                0 <= i < r@.len() ==> (#[trigger] r@[i]) < self.next_id && !self.deleted@.contains(
                    r@[i],
                ),
            r@.no_duplicates(),
    {
        let found = self.search_with_dists(query, k, n_probe);
        let mut r: Vec<u64> = Vec::new();
        let n: usize = found.len();
        let mut i: usize = 0;
        while i < n
            invariant
                i <= n == found@.len(),
                r@ == Seq::new(i as nat, |j: int| found@[j].id),
            decreases n - i,
        {
            r.push(found[i].id);
            i = i + 1;
            assert(r@ =~= Seq::new(i as nat, |j: int| found@[j].id));
        }
        proof {
            let (hits, probes) = choose|hits: Seq<Hit>, probes: Seq<Candidate>| #[trigger]
                self.search_result(query, k as int, n_probe, hits, probes, found@);
            assert(self.found_ids(query, k as int, n_probe, r@)) by {
                assert(self.search_result(query, k as int, n_probe, hits, probes, found@));
            }
            assert forall|i: int| 0 <= i < r@.len() implies (#[trigger] r@[i]) < self.next_id
                && !self.deleted@.contains(r@[i]) by {
                assert(r@[i] == found@[i].id);
            }
            assert forall|i: int, j: int| 0 <= i < j < r@.len() implies r@[i] != r@[j] by {
                assert(found@[i].id != found@[j].id);
            }
        }
        r
    }

    /// The ids that a search gives.
    pub open spec fn found_ids(&self, query: &[u32], k: int, n_probe: usize, ids: Seq<u64>) -> bool {
        exists|hits: Seq<Hit>, probes: Seq<Candidate>, found: Seq<Hit>| #[trigger]
            self.search_result(query, k, n_probe, hits, probes, found) && ids == Seq::new(
                found.len(),
                |j: int| found[j].id,
            )
    }

    /// The ids of the nearest vectors for each of some queries.
    pub fn search_batch(&self, queries: &Vec<Vec<u32>>, k: usize, n_probe: usize) -> (r: Vec<
        Vec<u64>,
    >)
        requires
            self.wf(),
            crate::kmeans::level(queries@, self.dim as int),
            self.asks_for_some(k as int),
        ensures
            r@.len() == queries@.len(),
            forall|i: int|
                0 <= i < r@.len() ==> self.batch_row(queries@[i], k as int, n_probe, (
                #[trigger] r@[i])@),
    {
        let mut r: Vec<Vec<u64>> = Vec::new();
        let n: usize = queries.len();
        let mut i: usize = 0;
        while i < n
            invariant
                i <= n == queries@.len(),
                self.wf(),
                crate::kmeans::level(queries@, self.dim as int),
                self.asks_for_some(k as int),
                    r@.len() == i,
                forall|j: int|
                    0 <= j < i ==> self.batch_row(queries@[j], k as int, n_probe, (
                    #[trigger] r@[j])@),
            decreases n - i,
        {
            assert(queries@[i as int]@.len() == self.dim);
            let query = queries[i].as_slice();
            let ids = self.search(query, k, n_probe);
            proof {
                assert(query@ == queries@[i as int]@);
                assert(self.found_ids(query, k as int, n_probe, ids@));
                assert(self.batch_row(queries@[i as int], k as int, n_probe, ids@));
            }
            r.push(ids);
            i = i + 1;
        }
        r
    }

    /// The ids found for one of some queries.
    pub open spec fn batch_row(&self, query: Vec<u32>, k: int, n_probe: usize, ids: Seq<u64>) -> bool {
        exists|q: &[u32]| #[trigger] self.found_ids(q, k, n_probe, ids) && q@ == query@
    }
}

impl<'a, D: Distance> SPFresh<'a, D> {
    proof fn lemma_all_in_reach(&self, probes: Seq<Candidate>, i: int)
        requires
            word::magnitude(self.cfg.probe_ratio) >= word::INFINITY,
            0 <= i <= probes.len(),
        ensures
            self.reach(probes, i) == probes.len(),
        decreases probes.len() - i,
    {
        if i < probes.len() {
            self.lemma_all_in_reach(probes, i + 1);
        }
    }

    proof fn lemma_block_has(&self, b: int, upto: int, i: int, score: Score)
        requires
            0 <= i < upto,
            !self.deleted@.contains(self.posting(b)[i].id),
        ensures
            self.scan_block(b, upto, score).contains(
                Hit { dist: score(b, self.posting(b)[i]), id: self.posting(b)[i].id },
            ),
        decreases upto,
    {
        let h = Hit { dist: score(b, self.posting(b)[i]), id: self.posting(b)[i].id };
        let now = self.scan_block(b, upto, score);
        if i == upto - 1 {
            assert(now.last() == h);
            assert(now[now.len() - 1] == h);
        } else {
            self.lemma_block_has(b, upto - 1, i, score);
            let before = self.scan_block(b, upto - 1, score);
            let m = choose|m: int| 0 <= m < before.len() && before[m] == h;
            assert(now[m] == h);
        }
    }

    /// Entries that are not deleted are scanned.
    proof fn lemma_scan_has(&self, probes: Seq<Candidate>, upto: int, p: int, i: int, score: Score)
        requires
            0 <= p < upto,
            0 <= i < self.posting(probes[p].id as int).len(),
            !self.deleted@.contains(self.posting(probes[p].id as int)[i].id),
        ensures
            ({
                let b = probes[p].id as int;
                self.scan(probes, upto, score).contains(
                    Hit { dist: score(b, self.posting(b)[i]), id: self.posting(b)[i].id },
                )
            }),
        decreases upto,
    {
        let b = probes[p].id as int;
        let h = Hit { dist: score(b, self.posting(b)[i]), id: self.posting(b)[i].id };
        let before = self.scan(probes, upto - 1, score);
        let now = self.scan(probes, upto, score);
        if p == upto - 1 {
            let n = self.posting(b).len() as int;
            self.lemma_block_has(b, n, i, score);
            let part = self.scan_block(b, n, score);
            let m = choose|m: int| 0 <= m < part.len() && part[m] == h;
            assert(now[before.len() + m] == h);
        } else {
            self.lemma_scan_has(probes, upto - 1, p, i, score);
            let m = choose|m: int| 0 <= m < before.len() && before[m] == h;
            assert(now[m] == h);
        }
    }

    proof fn lemma_block_scores(&self, b: int, upto: int, score: Score)
        requires
            0 <= upto <= self.posting(b).len(),
        ensures
            forall|m: int|
                0 <= m < self.scan_block(b, upto, score).len() ==> self.is_scored(
                    #[trigger] self.scan_block(b, upto, score)[m],
                    b,
                    score,
                ),
        decreases upto,
    {
        if upto > 0 {
            self.lemma_block_scores(b, upto - 1, score);
            let before = self.scan_block(b, upto - 1, score);
            let now = self.scan_block(b, upto, score);
            assert forall|m: int| 0 <= m < now.len() implies self.is_scored(
                #[trigger] now[m],
                b,
                score,
            ) by {
                if m < before.len() {
                    assert(now[m] == before[m]);
                    assert(self.is_scored(before[m], b, score));
                } else {
                    let e = self.posting(b)[upto - 1];
                    assert(now[m] == (Hit { dist: score(b, e), id: e.id }));
                }
            }
        }
    }

    /// A hit is an entry of a block with its score.
    spec fn is_scored(&self, h: Hit, b: int, score: Score) -> bool {
        exists|i: int|
            0 <= i < self.posting(b).len() && h == (Hit {
                dist: score(b, #[trigger] self.posting(b)[i]),
                id: self.posting(b)[i].id,
            })
    }

    proof fn lemma_scan_scores(&self, probes: Seq<Candidate>, upto: int, score: Score)
        requires
            0 <= upto <= probes.len(),
        ensures
            forall|m: int|
                0 <= m < self.scan(probes, upto, score).len() ==> self.is_scored_in(
                    #[trigger] self.scan(probes, upto, score)[m],
                    probes,
                    score,
                ),
        decreases upto,
    {
        if upto > 0 {
            let b = probes[upto - 1].id as int;
            let n = self.posting(b).len() as int;
            self.lemma_scan_scores(probes, upto - 1, score);
            self.lemma_block_scores(b, n, score);
            let before = self.scan(probes, upto - 1, score);
            let part = self.scan_block(b, n, score);
            let now = self.scan(probes, upto, score);
            assert forall|m: int| 0 <= m < now.len() implies self.is_scored_in(
                #[trigger] now[m],
                probes,
                score,
            ) by {
                if m < before.len() {
                    assert(now[m] == before[m]);
                    assert(self.is_scored_in(before[m], probes, score));
                } else {
                    assert(now[m] == part[m - before.len()]);
                    assert(self.is_scored(now[m], probes[upto - 1].id as int, score));
                }
            }
        }
    }

    spec fn is_scored_in(&self, h: Hit, probes: Seq<Candidate>, score: Score) -> bool {
        exists|p: int|
            0 <= p < probes.len() && #[trigger] self.is_scored(h, probes[p].id as int, score)
    }

    /// There are no more centroids than postings.
    proof fn lemma_listed_count(&self, v: Seq<u32>)
        requires
            self.wf(),
        ensures
            self.centroids_upto(v, self.block_cid@.len() as int).len() <= self.cid_block@.len(),
    {
        broadcast use vstd::std_specs::hash::group_hash_axioms;

        let listed = self.centroids_upto(v, self.block_cid@.len() as int);
        self.lemma_centroids(v, self.block_cid@.len() as int);
        let cids = listed.map_values(|c: Candidate| self.block_cid@[c.id as int]);
        let dom = self.cid_block@.dom();
        assert forall|i: int| 0 <= i < cids.len() implies dom.contains(#[trigger] cids[i])
            && self.cid_block@[cids[i]] == listed[i].id by {
            assert(self.is_posting(listed[i].id as int));
        }
        assert(cids.no_duplicates()) by {
            assert forall|i: int, j: int|
                0 <= i < cids.len() && 0 <= j < cids.len() && i != j implies cids[i] != cids[j] by {
                if i < j {
                    assert(listed[i].id != listed[j].id);
                } else {
                    assert(listed[j].id != listed[i].id);
                }
            }
        }
        cids.unique_seq_to_set();
        assert(cids.to_set().subset_of(dom));
        vstd::set_lib::lemma_len_subset(cids.to_set(), dom);
    }

    /// The distance of a stored vector from a query.
    pub open spec fn exact(&self, query: Seq<u32>, id: u64) -> u32 {
        self.dist.eval_spec(query, self.raw_at(id as int))
    }

    /// A vector that was stored and not deleted.
    pub open spec fn is_stored(&self, id: u64) -> bool {
        id < self.next_id && !self.deleted@.contains(id)
    }

    /// A search of all postings by the vectors themselves misses nothing: distances are
    /// those of the vectors, and a vector that is not returned is no nearer than any of
    /// the `k` that are, where distances are numbers.
    #[verifier::rlimit(40)]
    pub proof fn full_probe_is_exact(
        &self,
        query: &[u32],
        k: int,
        n_probe: usize,
        hits: Seq<Hit>,
        probes: Seq<Candidate>,
        r: Seq<Hit>,
        id: u64,
    )
        requires
            self.wf(),
            self.is_complete(),
            self.quantizer is None,
            word::magnitude(self.cfg.probe_ratio) >= word::INFINITY,
            self.cid_block@.len() <= crate::spfresh::BRUTE_FORCE_CENTROIDS,
            self.cid_block@.len() <= n_probe,
            0 < k,
            self.search_result(query, k, n_probe, hits, probes, r),
            self.is_stored(id),
        ensures
            forall|i: int|
                0 <= i < r.len() ==> (#[trigger] r[i]).dist == self.exact(query@, r[i].id)
                    && self.is_stored(r[i].id),
            candidate::holds_id(r, id) || r.len() == k,
            candidate::holds_id(r, id) || ((forall|x: u64| #[trigger]
                self.is_stored(x) ==> !word::is_nan(self.exact(query@, x))) ==> forall|i: int|
                0 <= i < r.len() ==> word::order((#[trigger] r[i]).dist) <= word::order(
                    self.exact(query@, id),
                )),
    {
        let score = self.by_code(query@);
        let total = self.block_cid@.len() as int;
        let listed = self.centroids_upto(query@, total);
        self.lemma_centroids(query@, total);
        let n = Self::probes_for(n_probe);
        let sorted = choose|sorted: Seq<Candidate>| #[trigger]
            candidate::same_items(sorted, listed) && candidate::ranked(sorted) && probes
                == candidate::first(sorted, n);
        candidate::lemma_same_items(listed, sorted);
        self.lemma_listed_count(query@);
        assert(probes =~= sorted);
        self.lemma_all_in_reach(probes, 0);
        assert(self.within(probes) =~= probes);
        assert(self.are_postings(probes)) by {
            assert forall|i: int| 0 <= i < probes.len() implies self.is_posting(
                (#[trigger] probes[i]).id as int,
            ) by {
                assert(sorted.contains(sorted[i]));
                assert(listed.contains(sorted[i]));
                let j = choose|j: int| 0 <= j < listed.len() && listed[j] == sorted[i];
                assert(self.is_posting(listed[j].id as int));
            }
        }
        let all = self.scan(probes, probes.len() as int, score);
        self.lemma_scan_upto(probes, probes.len() as int, score);
        self.lemma_scan_scores(probes, probes.len() as int, score);
        let kept = choose|kept: Seq<Hit>| #[trigger]
            self.found_by_code(query@, k, probes, kept, r);
        self.lemma_answers(all, kept);
        self.lemma_lowest(kept, k, r);
        assert forall|m: int| 0 <= m < all.len() implies (#[trigger] all[m]).dist == self.exact(
            query@,
            all[m].id,
        ) && self.is_stored(all[m].id) by {
            assert(self.is_scored_in(all[m], probes, score));
        }
        assert forall|i: int| 0 <= i < kept.len() implies (#[trigger] kept[i]).dist == self.exact(
            query@,
            kept[i].id,
        ) && self.is_stored(kept[i].id) by {
            assert(all.contains(kept[i]));
        }
        assert forall|i: int| 0 <= i < r.len() implies (#[trigger] r[i]).dist == self.exact(
            query@,
            r[i].id,
        ) && self.is_stored(r[i].id) by {
            assert(kept.contains(r[i]));
        }
        assert(self.is_placed(id));
        let b = choose|b: int| #[trigger] self.holds_id(b, id);
        let i = choose|i: int|
            0 <= i < self.posting(b).len() && (#[trigger] self.posting(b)[i]).id == id;
        assert(self.is_posting(b));
        assert(candidate::holds_id(listed, b as u32));
        assert(candidate::holds_id(probes, b as u32));
        let p = choose|p: int| 0 <= p < probes.len() && (#[trigger] probes[p]).id == b as u32;
        self.lemma_scan_has(probes, probes.len() as int, p, i, score);
        let h = Hit { dist: score(b, self.posting(b)[i]), id };
        assert(all.contains(h));
        let m = choose|m: int| 0 <= m < all.len() && all[m] == h;
        lemma_kept_whole(kept, k, r);
        if !candidate::holds_id(r, id) {
            assert(!candidate::holds_id(kept, id));
            if forall|x: u64| #[trigger]
                self.is_stored(x) ==> !word::is_nan(self.exact(query@, x)) {
                assert(select::numeric(all)) by {
                    assert forall|j: int| 0 <= j < all.len() implies !word::is_nan(
                        (#[trigger] all[j]).dist,
                    ) by {
                        assert(self.is_stored(all[j].id));
                    }
                }
                assert forall|j: int| 0 <= j < r.len() implies word::order((#[trigger] r[j]).dist)
                    <= word::order(self.exact(query@, id)) by {
                    assert(kept.contains(r[j]));
                    let q = choose|q: int| 0 <= q < kept.len() && kept[q] == r[j];
                    assert(word::order(kept[q].dist) <= word::order(all[m].dist));
                }
            }
        }
    }
}

/// All of up to `k` hits are among the lowest `k`.
proof fn lemma_kept_whole(kept: Seq<Hit>, k: int, r: Seq<Hit>)
    requires
        kept.len() <= k,
        candidate::lowest(kept, k, r),
    ensures
        r.len() == kept.len(),
        forall|id: u64| candidate::holds_id(kept, id) <==> #[trigger] candidate::holds_id(r, id),
{
    let sorted = choose|sorted: Seq<Hit>| #[trigger]
        candidate::same_items(sorted, kept) && candidate::ranked(sorted) && r == candidate::first(
            sorted,
            k,
        );
    candidate::lemma_same_items(kept, sorted);
    assert(r =~= sorted);
}

impl<'a, D: Distance> SPFresh<'a, D> {
    /// A hit is a live entry of a posting, with its score.
    spec fn is_live_entry(&self, h: Hit, score: Score) -> bool {
        exists|b: int, i: int|
            #![trigger self.posting(b)[i]]
            self.is_posting(b) && 0 <= i < self.posting(b).len() && h == (Hit {
                dist: score(b, self.posting(b)[i]),
                id: self.posting(b)[i].id,
            }) && !self.deleted@.contains(h.id)
    }

    proof fn lemma_live_block(&self, b: int, upto: int, score: Score)
        requires
            self.is_posting(b),
            0 <= upto <= self.posting(b).len(),
        ensures
            forall|m: int|
                0 <= m < self.scan_block(b, upto, score).len() ==> self.is_live_entry(
                    #[trigger] self.scan_block(b, upto, score)[m],
                    score,
                ),
        decreases upto,
    {
        if upto > 0 {
            self.lemma_live_block(b, upto - 1, score);
            let before = self.scan_block(b, upto - 1, score);
            let now = self.scan_block(b, upto, score);
            assert forall|m: int| 0 <= m < now.len() implies self.is_live_entry(
                #[trigger] now[m],
                score,
            ) by {
                if m < before.len() {
                    assert(now[m] == before[m]);
                } else {
                    let e = self.posting(b)[upto - 1];
                    assert(now[m] == (Hit { dist: score(b, e), id: e.id }));
                }
            }
        }
    }

    proof fn lemma_live_scan(&self, probes: Seq<Candidate>, upto: int, score: Score)
        requires
            forall|i: int|
                0 <= i < probes.len() ==> self.is_posting((#[trigger] probes[i]).id as int),
            0 <= upto <= probes.len(),
        ensures
            forall|m: int|
                0 <= m < self.scan(probes, upto, score).len() ==> self.is_live_entry(
                    #[trigger] self.scan(probes, upto, score)[m],
                    score,
                ),
        decreases upto,
    {
        if upto > 0 {
            let b = probes[upto - 1].id as int;
            let n = self.posting(b).len() as int;
            self.lemma_live_scan(probes, upto - 1, score);
            assert(self.is_posting(probes[upto - 1].id as int));
            self.lemma_live_block(b, n, score);
            let before = self.scan(probes, upto - 1, score);
            let part = self.scan_block(b, n, score);
            let now = self.scan(probes, upto, score);
            assert forall|m: int| 0 <= m < now.len() implies self.is_live_entry(
                #[trigger] now[m],
                score,
            ) by {
                if m < before.len() {
                    assert(now[m] == before[m]);
                } else {
                    assert(now[m] == part[m - before.len()]);
                }
            }
        }
    }

    /// Whether the quantizer has codes of one bit for each component.
    pub open spec fn has_bits(&self) -> bool {
        self.quantizer is Some && self.quantizer->0 is RaBitQ
    }

    /// Every answer of a search is a stored vector that was not deleted. Its distance is
    /// the metric's between the query and that vector, wherever vectors are compared: where
    /// there are no codes, where the best are compared again, and, for codes of bits, under
    /// a Euclidean metric, as a square under the metric of squares and as its root under
    /// the other. Else it is the distance of the vector's code, which under a metric that
    /// is not Euclidean is that of the vector that the code stands for.
    #[verifier::rlimit(40)]
    pub proof fn answers_are_measured(
        &self,
        query: &[u32],
        k: int,
        n_probe: usize,
        hits: Seq<Hit>,
        probes: Seq<Candidate>,
        r: Seq<Hit>,
        i: int,
    )
        requires
            self.wf(),
            0 <= k,
            self.search_result(query, k, n_probe, hits, probes, r),
            0 <= i < r.len(),
        ensures
            r[i].id < self.next_id,
            !self.deleted@.contains(r[i].id),
            ({
                let kind = self.dist.kind_spec();
                let v = self.raw_at(r[i].id as int);
                let again = self.quantizer is Some && self.cfg.rerank_size > 0;
                &&& self.has_bits() && kind == MetricKind::L2 ==> r[i].dist == self.dist.root_spec(
                    self.dist.square_l2_spec(query@, v),
                )
                &&& self.has_bits() && kind == MetricKind::L2Sq ==> r[i].dist
                    == self.dist.square_l2_spec(query@, v)
                &&& self.quantizer is None ==> r[i].dist == self.dist.eval_spec(query@, v)
                &&& again && (!self.has_bits() || kind == MetricKind::Other) ==> r[i].dist
                    == self.dist.eval_spec(query@, v)
                &&& self.quantizer is Some && !again && !self.has_bits() ==> r[i].dist
                    == self.quantizer->0.distance_of(
                    self.dist,
                    query@,
                    self.quantizer->0.code_of(self.dist, v),
                )
                &&& self.quantizer is Some && !again && !self.has_bits() && kind
                    == MetricKind::Other ==> r[i].dist == self.dist.eval_spec(
                    query@,
                    self.quantizer->0.decoded(
                        self.dist,
                        self.quantizer->0.code_of(self.dist, v),
                    ),
                )
                &&& self.has_bits() && !again && kind == MetricKind::Other ==> exists|b: int|
                    #[trigger] self.holds_id(b, r[i].id) && r[i].dist == self.dist.eval_spec(
                        query@,
                        self.quantizer->0->RaBitQ_0.decoded(
                            self.dist,
                            self.quantizer->0->RaBitQ_0.code_of(self.dist, v, self.centroid(b)),
                            self.centroid(b),
                        ),
                    )
            }),
    {
        let near = self.within(probes);
        let n = near.len() as int;
        self.lemma_near_are_postings(query, Self::probes_for(n_probe), hits, probes);
        self.lemma_reach(probes, 0);
        assert forall|j: int| 0 <= j < near.len() implies self.is_posting(
            (#[trigger] near[j]).id as int,
        ) by {
            assert(near[j] == probes[j]);
        }
        if self.goes_by_bounds() {
            let score = self.by_square(query@);
            let (considered, kept) = choose|considered: Seq<Hit>, kept: Seq<Hit>| #[trigger]
                self.found_by_bound(query@, k, probes, considered, kept, r);
            let all = self.scan(near, n, score);
            self.lemma_live_scan(near, n, score);
            let out = self.unsquared(kept);
            candidate::lemma_same_items(r, out);
            assert(r.contains(r[i]));
            assert(out.contains(r[i]));
            let j = choose|j: int| 0 <= j < out.len() && out[j] == r[i];
            assert(considered.contains(kept[j]));
            let m = choose|m: int| 0 <= m < considered.len() && considered[m] == kept[j];
            assert(all.contains(considered[m]));
            let x = choose|x: int| 0 <= x < all.len() && all[x] == considered[m];
            assert(self.is_live_entry(all[x], score));
            assert(all[x].id == r[i].id);
        } else {
            let score = self.by_code(query@);
            let kept = choose|kept: Seq<Hit>| #[trigger]
                self.found_by_code(query@, k, probes, kept, r);
            let all = self.scan(near, n, score);
            self.lemma_live_scan(near, n, score);
            let out = self.rescored(query@, kept);
            let sorted = choose|sorted: Seq<Hit>| #[trigger]
                candidate::same_items(sorted, out) && candidate::ranked(sorted) && r
                    == candidate::first(sorted, k);
            candidate::lemma_same_items(sorted, out);
            assert(sorted.contains(sorted[i]));
            assert(out.contains(r[i]));
            let j = choose|j: int| 0 <= j < out.len() && out[j] == r[i];
            assert(all.contains(kept[j]));
            let x = choose|x: int| 0 <= x < all.len() && all[x] == kept[j];
            assert(self.is_live_entry(all[x], score));
            let (b, e) = choose|b: int, e: int|
                #![trigger self.posting(b)[e]]
                self.is_posting(b) && 0 <= e < self.posting(b).len() && all[x] == (Hit {
                    dist: score(b, self.posting(b)[e]),
                    id: self.posting(b)[e].id,
                }) && !self.deleted@.contains(all[x].id);
            assert(all[x].id == r[i].id);
            assert(self.posting(b)[e].code == self.code_for(
                self.raw_at(self.posting(b)[e].id as int),
                self.centroid(b),
            ));
            assert(self.holds_id(b, r[i].id));
        }
    }

    /// Which of the nearest postings are searched, nearest first: all of them, unless the
    /// ratio is a finite number and the nearest centroid's distance is not below zero; then
    /// those up to the first whose centroid is farther than the ratio times the nearest, a
    /// ratio below 1.0 counting as 1.0.
    pub proof fn far_postings_are_passed_over(&self, probes: Seq<Candidate>)
        requires
            probes.len() > 0,
        ensures
            ({
                let near = self.within(probes);
                let ratio = self.cfg.probe_ratio;
                let d0 = probes[0].dist;
                let edge = if word::less(ratio, 0x3f80_0000) {
                    self.dist.product_spec(d0, 0x3f80_0000)
                } else {
                    self.dist.product_spec(d0, ratio)
                };
                &&& near.len() <= probes.len()
                &&& near == probes.take(near.len() as int)
                &&& if word::magnitude(ratio) >= 0x7f80_0000 || !word::at_most(0, d0) {
                    near.len() == probes.len()
                } else {
                    &&& forall|j: int|
                        0 <= j < near.len() ==> !word::less(edge, (#[trigger] probes[j]).dist)
                    &&& near.len() < probes.len() ==> word::less(
                        edge,
                        probes[near.len() as int].dist,
                    )
                }
            }),
    {
        self.lemma_reach(probes, 0);
        self.lemma_edge(probes, 0);
        let near = self.within(probes);
        assert(near =~= probes.take(near.len() as int));
        if word::magnitude(self.cfg.probe_ratio) >= 0x7f80_0000 {
            self.lemma_all_in_reach(probes, 0);
        }
    }

    proof fn lemma_edge(&self, probes: Seq<Candidate>, i: int)
        requires
            0 <= i <= probes.len(),
        ensures
            i <= self.reach(probes, i) <= probes.len(),
            forall|j: int|
                i <= j < self.reach(probes, i) ==> !self.too_far(
                    probes[0].dist,
                    (#[trigger] probes[j]).dist,
                ),
            self.reach(probes, i) < probes.len() ==> self.too_far(
                probes[0].dist,
                probes[self.reach(probes, i)].dist,
            ),
        decreases probes.len() - i,
    {
        if i < probes.len() && !self.too_far(probes[0].dist, probes[i].dist) {
            self.lemma_edge(probes, i + 1);
        }
    }

    /// Without codes, a search misses nothing in the postings that it searches: a live
    /// entry that is not returned is no nearer than any of the `k` that are, where distances
    /// are numbers.
    #[verifier::rlimit(40)]
    pub proof fn searched_postings_are_searched_whole(
        &self,
        query: &[u32],
        k: int,
        n_probe: usize,
        hits: Seq<Hit>,
        probes: Seq<Candidate>,
        r: Seq<Hit>,
        p: int,
        e: int,
    )
        requires
            self.wf(),
            self.quantizer is None,
            0 < k,
            self.search_result(query, k, n_probe, hits, probes, r),
            0 <= p < self.within(probes).len(),
            0 <= e < self.posting(self.within(probes)[p].id as int).len(),
            !self.deleted@.contains(self.posting(self.within(probes)[p].id as int)[e].id),
        ensures
            ({
                let id = self.posting(self.within(probes)[p].id as int)[e].id;
                let far = self.dist.eval_spec(query@, self.raw_at(id as int));
                candidate::holds_id(r, id) || (r.len() == k && ((forall|x: u64| #[trigger]
                    self.is_stored(x) ==> !word::is_nan(
                        self.dist.eval_spec(query@, self.raw_at(x as int)),
                    )) ==> forall|i: int|
                    0 <= i < r.len() ==> word::order((#[trigger] r[i]).dist) <= word::order(far)))
            }),
    {
        let near = self.within(probes);
        let n = near.len() as int;
        let score = self.by_code(query@);
        let b = near[p].id as int;
        let id = self.posting(b)[e].id;
        self.lemma_near_are_postings(query, Self::probes_for(n_probe), hits, probes);
        self.lemma_reach(probes, 0);
        assert forall|j: int| 0 <= j < near.len() implies self.is_posting(
            (#[trigger] near[j]).id as int,
        ) by {
            assert(near[j] == probes[j]);
        }
        let all = self.scan(near, n, score);
        self.lemma_live_scan(near, n, score);
        self.lemma_scan_has(near, n, p, e, score);
        let kept = choose|kept: Seq<Hit>| #[trigger]
            self.found_by_code(query@, k, probes, kept, r);
        let h = Hit { dist: score(b, self.posting(b)[e]), id };
        assert(all.contains(h));
        let m = choose|m: int| 0 <= m < all.len() && all[m] == h;
        lemma_kept_whole(kept, k, r);
        if !candidate::holds_id(r, id) {
            assert(!candidate::holds_id(kept, id));
            if forall|x: u64| #[trigger]
                self.is_stored(x) ==> !word::is_nan(
                    self.dist.eval_spec(query@, self.raw_at(x as int)),
                ) {
                assert(select::numeric(all)) by {
                    assert forall|j: int| 0 <= j < all.len() implies !word::is_nan(
                        (#[trigger] all[j]).dist,
                    ) by {
                        assert(self.is_live_entry(all[j], score));
                        let (c, f) = choose|c: int, f: int|
                            #![trigger self.posting(c)[f]]
                            self.is_posting(c) && 0 <= f < self.posting(c).len() && all[j] == (Hit {
                                dist: score(c, self.posting(c)[f]),
                                id: self.posting(c)[f].id,
                            }) && !self.deleted@.contains(all[j].id);
                        assert(self.posting(c)[f].id < self.next_id);
                        assert(self.is_stored(all[j].id));
                    }
                }
                let sorted = choose|sorted: Seq<Hit>| #[trigger]
                    candidate::same_items(sorted, kept) && candidate::ranked(sorted) && r
                        == candidate::first(sorted, k);
                candidate::lemma_same_items(sorted, kept);
                assert forall|j: int| 0 <= j < r.len() implies word::order((#[trigger] r[j]).dist)
                    <= word::order(h.dist) by {
                    assert(sorted.contains(sorted[j]));
                    assert(kept.contains(r[j]));
                    let q = choose|q: int| 0 <= q < kept.len() && kept[q] == r[j];
                    assert(word::order(kept[q].dist) <= word::order(all[m].dist));
                }
            }
        }
    }
}

} // verus!
