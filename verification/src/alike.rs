//! Posting indexes with the same content answer alike; so does one that was written and
//! opened again.
use crate::beam::Trace;
use crate::bytes;
use crate::candidate;
use crate::candidate::Candidate;
use crate::candidate::Hit;
use crate::error::DiskAnnError;
use crate::image;
use crate::incremental::IncrementalConfig;
use crate::incremental::IncrementalDiskANN;
use crate::index::DiskANN;
use crate::index::Metadata;
use crate::like;
use crate::meta::Meta;
use crate::metric;
use crate::metric::Distance;
use crate::postings::Entry;
use crate::probe::Score;
use crate::quantizer;
use crate::quantizer::Prepared;
use crate::quantizer::QuantizerState;
use crate::reopen;
use crate::snapshot;
use crate::snapshot::Manifest;
use crate::snapshot::Objects;
use crate::snapshot::Snapshot;
use crate::spfresh;
use crate::spfresh::SPFresh;
use crate::word;
use vstd::prelude::*;

verus! {

impl<'a, D: Distance> SPFresh<'a, D> {
    /// The two indexes have the same content, and graphs that are searched alike.
    pub open spec fn is_twin(&self, other: &Self) -> bool {
        &&& other.same_content(self)
        &&& self.graph.reads_back_as(&other.graph)
    }

    proof fn lemma_same_postings(&self, other: &Self)
        requires
            self.wf(),
            other.same_content(self),
        ensures
            forall|b: int| #[trigger] self.is_posting(b) == other.is_posting(b),
            forall|b: int|
                0 <= b < self.block_cid@.len() ==> #[trigger] self.centroid(b) == other.centroid(b),
            forall|id: int| #[trigger] self.raw_at(id) == other.raw_at(id),
    {
        assert(metric::rows(self.block_centroid@).len() == metric::rows(
            other.block_centroid@,
        ).len());
        assert forall|b: int| 0 <= b < self.block_cid@.len() implies #[trigger] self.centroid(b)
            == other.centroid(b) by {
            assert(metric::rows(self.block_centroid@)[b] == metric::rows(other.block_centroid@)[b]);
        }
    }

    proof fn lemma_same_centroids(&self, other: &Self, v: Seq<u32>, upto: int)
        requires
            self.wf(),
            other.same_content(self),
            upto <= self.block_cid@.len(),
        ensures
            self.centroids_upto(v, upto) == other.centroids_upto(v, upto),
        decreases upto,
    {
        self.lemma_same_postings(other);
        if upto > 0 {
            self.lemma_same_centroids(other, v, upto - 1);
            assert(self.is_posting(upto - 1) == other.is_posting(upto - 1));
            assert(self.centroid(upto - 1) == other.centroid(upto - 1));
        }
    }

    proof fn lemma_same_blocks(&self, other: &Self, hits: Seq<Hit>)
        requires
            other.same_content(self),
        ensures
            self.blocks_of(hits) == other.blocks_of(hits),
        decreases hits.len(),
    {
        if hits.len() > 0 {
            self.lemma_same_blocks(other, hits.drop_last());
        }
    }

    proof fn lemma_blocks_are_postings(&self, hits: Seq<Hit>)
        requires
            self.wf(),
        ensures
            forall|i: int|
                0 <= i < self.blocks_of(hits).len() ==> self.is_posting(
                    (#[trigger] self.blocks_of(hits)[i]).id as int,
                ),
        decreases hits.len(),
    {
        if hits.len() > 0 {
            self.lemma_blocks_are_postings(hits.drop_last());
            let before = self.blocks_of(hits.drop_last());
            let now = self.blocks_of(hits);
            assert forall|i: int| 0 <= i < now.len() implies self.is_posting(
                (#[trigger] now[i]).id as int,
            ) by {
                if i < before.len() {
                    assert(now[i] == before[i]);
                } else {
                    assert(self.cid_block@.contains_key(hits.last().id));
                }
            }
        }
    }

    pub(crate) proof fn lemma_near_are_postings(
        &self,
        v: &[u32],
        n: int,
        hits: Seq<Hit>,
        probes: Seq<Candidate>,
    )
        requires
            self.wf(),
            n >= 0,
            self.nearest_result(v, n, hits, probes),
        ensures
            forall|i: int|
                0 <= i < probes.len() ==> self.is_posting((#[trigger] probes[i]).id as int),
    {
        if self.cid_block@.len() <= spfresh::BRUTE_FORCE_CENTROIDS {
            let m = self.block_cid@.len() as int;
            let all = self.centroids_upto(v@, m);
            self.lemma_centroids(v@, m);
            let sorted = choose|sorted: Seq<Candidate>| #[trigger]
                candidate::same_items(sorted, all) && candidate::ranked(sorted) && probes
                    == candidate::first(sorted, n);
            candidate::lemma_same_items(sorted, all);
            assert forall|i: int| 0 <= i < probes.len() implies self.is_posting(
                (#[trigger] probes[i]).id as int,
            ) by {
                assert(sorted[i] == probes[i]);
                assert(sorted.contains(probes[i]));
                assert(all.contains(probes[i]));
                let j = choose|j: int| 0 <= j < all.len() && all[j] == probes[i];
                assert(self.is_posting(all[j].id as int));
            }
        } else {
            self.lemma_blocks_are_postings(hits);
        }
    }

    proof fn lemma_same_nearest(
        &self,
        other: &Self,
        v: &[u32],
        n: int,
        hits: Seq<Hit>,
        r: Seq<Candidate>,
    )
        requires
            self.wf(),
            self.is_twin(other),
            v@.len() == self.dim,
            n >= 0,
        ensures
            self.nearest_result(v, n, hits, r) == other.nearest_result(v, n, hits, r),
    {
        self.lemma_same_centroids(other, v@, self.block_cid@.len() as int);
        self.lemma_same_blocks(other, hits);
        let beam = self.beam_for(n);
        assert forall|prep: Prepared, t: Trace, found: Seq<Candidate>, kept: Seq<Candidate>|
            self.graph.search_result(v, n, beam, prep, t, found, kept, hits)
                == #[trigger] other.graph.search_result(
            v,
            n,
            beam,
            prep,
            t,
            found,
            kept,
            hits,
        ) by {
            like::like_indexes_answer_alike(
                &self.graph,
                &other.graph,
                v,
                n,
                beam,
                prep,
                t,
                found,
                kept,
                hits,
            );
        }
        if exists|prep: Prepared, t: Trace, found: Seq<Candidate>, kept: Seq<Candidate>|
            #[trigger] self.graph.search_result(v, n, beam, prep, t, found, kept, hits) {
            let (prep, t, found, kept) = choose|
                prep: Prepared,
                t: Trace,
                found: Seq<Candidate>,
                kept: Seq<Candidate>,
            | #[trigger]
                self.graph.search_result(v, n, beam, prep, t, found, kept, hits);
            assert(other.graph.search_result(v, n, beam, prep, t, found, kept, hits));
        }
        if exists|prep: Prepared, t: Trace, found: Seq<Candidate>, kept: Seq<Candidate>|
            #[trigger] other.graph.search_result(v, n, beam, prep, t, found, kept, hits) {
            let (prep, t, found, kept) = choose|
                prep: Prepared,
                t: Trace,
                found: Seq<Candidate>,
                kept: Seq<Candidate>,
            | #[trigger]
                other.graph.search_result(v, n, beam, prep, t, found, kept, hits);
            assert(self.graph.search_result(v, n, beam, prep, t, found, kept, hits));
        }
        assert(other.beam_for(n) == beam);
    }

    proof fn lemma_same_reach(&self, other: &Self, probes: Seq<Candidate>, i: int)
        requires
            other.same_content(self),
        ensures
            self.reach(probes, i) == other.reach(probes, i),
        decreases probes.len() - i,
    {
        if i < probes.len() {
            self.lemma_same_reach(other, probes, i + 1);
        }
    }

    /// The two scores agree on the entries of postings.
    spec fn agree(&self, a: Score, b: Score) -> bool {
        forall|c: int, e: Entry| #![trigger a(c, e)] self.is_posting(c) ==> a(c, e) == b(c, e)
    }

    proof fn lemma_same_scan_block(&self, other: &Self, b: int, upto: int, x: Score, y: Score)
        requires
            other.same_content(self),
            self.is_posting(b),
            self.agree(x, y),
        ensures
            self.scan_block(b, upto, x) == other.scan_block(b, upto, y),
        decreases upto,
    {
        if upto > 0 {
            self.lemma_same_scan_block(other, b, upto - 1, x, y);
            assert(self.posting(b) == other.posting(b));
            let e = self.posting(b)[upto - 1];
            assert(x(b, e) == y(b, e));
        }
    }

    proof fn lemma_same_scan(
        &self,
        other: &Self,
        probes: Seq<Candidate>,
        upto: int,
        x: Score,
        y: Score,
    )
        requires
            other.same_content(self),
            upto <= probes.len(),
            forall|i: int|
                0 <= i < probes.len() ==> self.is_posting((#[trigger] probes[i]).id as int),
            self.agree(x, y),
        ensures
            self.scan(probes, upto, x) == other.scan(probes, upto, y),
        decreases upto,
    {
        if upto > 0 {
            self.lemma_same_scan(other, probes, upto - 1, x, y);
            let b = probes[upto - 1].id as int;
            assert(self.posting(b) == other.posting(b));
            self.lemma_same_scan_block(other, b, self.posting(b).len() as int, x, y);
        }
    }

    proof fn lemma_same_scores(&self, other: &Self, query: Seq<u32>)
        requires
            self.wf(),
            other.same_content(self),
        ensures
            self.agree(self.by_code(query), other.by_code(query)),
            self.agree(self.by_square(query), other.by_square(query)),
            self.agree(self.by_bound(query), other.by_bound(query)),
    {
        self.lemma_same_postings(other);
        let x = self.by_code(query);
        let y = other.by_code(query);
        assert forall|c: int, e: Entry| #![trigger x(c, e)] self.is_posting(c) implies x(c, e) == y(
            c,
            e,
        ) by {
            assert(self.raw_at(e.id as int) == other.raw_at(e.id as int));
            assert(self.centroid(c) == other.centroid(c));
            match (self.quantizer, other.quantizer) {
                (Some(QuantizerState::RaBitQ(q)), Some(QuantizerState::RaBitQ(p))) => {
                    assert(q.decoded(self.dist, e.code, self.centroid(c)) =~= p.decoded(
                        self.dist,
                        e.code,
                        self.centroid(c),
                    ));
                },
                (Some(q), Some(p)) => {
                    quantizer::same_quantizers_measure_alike(q, p, self.dist, query, e.code);
                },
                _ => {},
            }
        }
        let x = self.by_square(query);
        let y = other.by_square(query);
        assert forall|c: int, e: Entry| #![trigger x(c, e)] self.is_posting(c) implies x(c, e) == y(
            c,
            e,
        ) by {
            assert(self.raw_at(e.id as int) == other.raw_at(e.id as int));
        }
        let x = self.by_bound(query);
        let y = other.by_bound(query);
        assert forall|c: int, e: Entry| #![trigger x(c, e)] self.is_posting(c) implies x(c, e) == y(
            c,
            e,
        ) by {
            assert(self.centroid(c) == other.centroid(c));
        }
    }

    /// Indexes with the same content are searched alike.
    pub proof fn twins_answer_alike(
        &self,
        other: &Self,
        query: &[u32],
        k: int,
        n_probe: usize,
        hits: Seq<Hit>,
        probes: Seq<Candidate>,
        r: Seq<Hit>,
    )
        requires
            self.wf(),
            self.is_twin(other),
            query@.len() == self.dim,
        ensures
            self.search_result(query, k, n_probe, hits, probes, r) == other.search_result(
                query,
                k,
                n_probe,
                hits,
                probes,
                r,
            ),
    {
        let n = Self::probes_for(n_probe);
        self.lemma_same_nearest(other, query, n, hits, probes);
        if self.nearest_result(query, n, hits, probes) {
            self.lemma_near_are_postings(query, n, hits, probes);
            self.lemma_same_reach(other, probes, 0);
            self.lemma_same_postings(other);
            let near = self.within(probes);
            assert(near == other.within(probes));
            self.lemma_reach(probes, 0);
            assert forall|i: int| 0 <= i < near.len() implies self.is_posting(
                (#[trigger] near[i]).id as int,
            ) by {
                assert(near[i] == probes[i]);
            }
            let m = near.len() as int;
            self.lemma_same_scores(other, query@);
            self.lemma_same_scan(other, near, m, self.by_code(query@), other.by_code(query@));
            self.lemma_same_scan(other, near, m, self.by_square(query@), other.by_square(query@));
            self.lemma_same_scan(other, near, m, self.by_bound(query@), other.by_bound(query@));
            assert forall|kept: Seq<Hit>| self.rescored(query@, kept) == #[trigger] other.rescored(
                query@,
                kept,
            ) by {
                assert forall|i: int| 0 <= i < kept.len() implies self.raw_at(kept[i].id as int)
                    == other.raw_at(#[trigger] kept[i].id as int) by {
                }
                assert(self.rescored(query@, kept) =~= other.rescored(query@, kept));
            }
            assert forall|kept: Seq<Hit>| self.unsquared(kept) == #[trigger] other.unsquared(
                kept,
            ) by {
                assert(self.unsquared(kept) =~= other.unsquared(kept));
            }
            assert forall|considered: Seq<Hit>, kept: Seq<Hit>|
                self.found_by_bound(query@, k, probes, considered, kept, r)
                    == #[trigger] other.found_by_bound(
                query@,
                k,
                probes,
                considered,
                kept,
                r,
            ) by {
                assert(self.unsquared(kept) == other.unsquared(kept));
            }
            assert forall|kept: Seq<Hit>|
                self.found_by_code(query@, k, probes, kept, r) == #[trigger] other.found_by_code(
                query@,
                k,
                probes,
                kept,
                r,
            ) by {
                assert(self.rescored(query@, kept) == other.rescored(query@, kept));
            }
            if self.search_result(query, k, n_probe, hits, probes, r) {
                if self.goes_by_bounds() {
                    let (considered, kept) = choose|considered: Seq<Hit>, kept: Seq<Hit>| #[trigger]
                        self.found_by_bound(query@, k, probes, considered, kept, r);
                    assert(other.found_by_bound(query@, k, probes, considered, kept, r));
                } else {
                    let kept = choose|kept: Seq<Hit>| #[trigger]
                        self.found_by_code(query@, k, probes, kept, r);
                    assert(other.found_by_code(query@, k, probes, kept, r));
                }
            }
        }
    }

    proof fn lemma_one_nearest(
        &self,
        other: &Self,
        q1: &[u32],
        q2: &[u32],
        n: int,
        hits1: Seq<Hit>,
        probes1: Seq<Candidate>,
        hits2: Seq<Hit>,
        probes2: Seq<Candidate>,
    )
        requires
            self.wf(),
            other.same_content(self),
            self.graph.is_like(&other.graph),
            q1@.len() == self.dim,
            q1@ == q2@,
            n >= 0,
            self.nearest_result(q1, n, hits1, probes1),
            other.nearest_result(q2, n, hits2, probes2),
        ensures
            probes1 == probes2,
    {
        self.lemma_same_centroids(other, q1@, self.block_cid@.len() as int);
        if self.cid_block@.len() > spfresh::BRUTE_FORCE_CENTROIDS {
            let beam = self.beam_for(n);
            assert(other.beam_for(n) == beam);
            let (p1, t1, f1, k1) = choose|
                prep: Prepared,
                t: Trace,
                found: Seq<Candidate>,
                kept: Seq<Candidate>,
            | #[trigger]
                self.graph.search_result(q1, n, beam, prep, t, found, kept, hits1);
            let (p2, t2, f2, k2) = choose|
                prep: Prepared,
                t: Trace,
                found: Seq<Candidate>,
                kept: Seq<Candidate>,
            | #[trigger]
                other.graph.search_result(q2, n, beam, prep, t, found, kept, hits2);
            like::like_indexes_return_one_list(
                &self.graph,
                &other.graph,
                q1,
                q2,
                n,
                beam,
                p1,
                t1,
                f1,
                k1,
                hits1,
                p2,
                t2,
                f2,
                k2,
                hits2,
            );
            self.lemma_same_blocks(other, hits1);
        }
    }

    /// Two searches for one query, of one index or of two with the same content and like
    /// graphs, return the same list.
    pub proof fn twins_return_one_list(
        &self,
        other: &Self,
        q1: &[u32],
        q2: &[u32],
        k: int,
        n_probe: usize,
        hits1: Seq<Hit>,
        probes1: Seq<Candidate>,
        r1: Seq<Hit>,
        hits2: Seq<Hit>,
        probes2: Seq<Candidate>,
        r2: Seq<Hit>,
    )
        requires
            self.wf(),
            other.same_content(self),
            self.graph.is_like(&other.graph),
            q1@.len() == self.dim,
            q1@ == q2@,
            self.search_result(q1, k, n_probe, hits1, probes1, r1),
            other.search_result(q2, k, n_probe, hits2, probes2, r2),
        ensures
            r1 == r2,
    {
        let n = Self::probes_for(n_probe);
        self.lemma_one_nearest(other, q1, q2, n, hits1, probes1, hits2, probes2);
        self.lemma_near_are_postings(q1, n, hits1, probes1);
        self.lemma_same_reach(other, probes1, 0);
        self.lemma_same_postings(other);
        let near = self.within(probes1);
        self.lemma_reach(probes1, 0);
        assert forall|i: int| 0 <= i < near.len() implies self.is_posting(
            (#[trigger] near[i]).id as int,
        ) by {
            assert(near[i] == probes1[i]);
        }
        let m = near.len() as int;
        self.lemma_same_scores(other, q1@);
        if self.goes_by_bounds() {
            self.lemma_same_scan(other, near, m, self.by_square(q1@), other.by_square(q1@));
            self.lemma_same_scan(other, near, m, self.by_bound(q1@), other.by_bound(q1@));
            let (c1, k1) = choose|considered: Seq<Hit>, kept: Seq<Hit>| #[trigger]
                self.found_by_bound(q1@, k, probes1, considered, kept, r1);
            let (c2, k2) = choose|considered: Seq<Hit>, kept: Seq<Hit>| #[trigger]
                other.found_by_bound(q2@, k, probes2, considered, kept, r2);
            assert(k1 == k2);
            assert(self.unsquared(k1) =~= other.unsquared(k2));
        } else {
            self.lemma_same_scan(other, near, m, self.by_code(q1@), other.by_code(q1@));
            let k1 = choose|kept: Seq<Hit>| #[trigger]
                self.found_by_code(q1@, k, probes1, kept, r1);
            let k2 = choose|kept: Seq<Hit>| #[trigger]
                other.found_by_code(q2@, k, probes2, kept, r2);
            assert(k1 == k2);
            assert(self.rescored(q1@, k1) =~= other.rescored(q2@, k2)) by {
                assert forall|i: int| 0 <= i < k1.len() implies self.raw_at(k1[i].id as int)
                    == other.raw_at(#[trigger] k1[i].id as int) by {
                }
            }
        }
    }

    /// An index has the same content as itself, and a graph like its own.
    pub proof fn index_is_its_own_twin(&self)
        ensures
            self.same_content(self),
            self.graph.is_like(&self.graph),
    {
        like::index_is_like_itself(&self.graph);
    }

    proof fn lemma_same_largest(&self, other: &Self, upto: int)
        requires
            self.wf(),
            other.same_content(self),
        ensures
            self.largest(upto) == other.largest(upto),
        decreases upto,
    {
        self.lemma_same_postings(other);
        if upto > 0 {
            self.lemma_same_largest(other, upto - 1);
            assert(self.is_posting(upto - 1) == other.is_posting(upto - 1));
            assert(self.posting(upto - 1) == other.posting(upto - 1));
        }
    }

    /// Indexes with the same content have the same counts, deletions and vectors.
    pub proof fn twins_hold_the_same(&self, other: &Self)
        requires
            self.wf(),
            other.same_content(self),
        ensures
            other.dim == self.dim,
            other.next_id == self.next_id,
            other.live == self.live,
            other.deleted@ == self.deleted@,
            other.cid_block@ == self.cid_block@,
            other.largest(other.block_cid@.len() as int) == self.largest(
                self.block_cid@.len() as int,
            ),
            forall|id: int| #[trigger] other.raw_at(id) == self.raw_at(id),
    {
        self.lemma_same_largest(other, self.block_cid@.len() as int);
        self.lemma_same_postings(other);
        assert forall|id: int| #[trigger] other.raw_at(id) == self.raw_at(id) by {
            assert(self.raw_at(id) == other.raw_at(id));
        }
    }

    /// A search of all postings of an index without codes, where the distances of stored
    /// vectors are numbers.
    pub open spec fn probes_all(
        &self,
        query: &[u32],
        k: int,
        n_probe: usize,
        hits: Seq<Hit>,
        probes: Seq<Candidate>,
        r: Seq<Hit>,
    ) -> bool {
        &&& self.wf()
        &&& self.is_complete()
        &&& self.quantizer is None
        &&& word::magnitude(self.cfg.probe_ratio) >= word::INFINITY
        &&& self.cid_block@.len() <= spfresh::BRUTE_FORCE_CENTROIDS
        &&& self.cid_block@.len() <= n_probe
        &&& 0 < k
        &&& self.search_result(query, k, n_probe, hits, probes, r)
        &&& self.are_answers(r)
        &&& r.len() <= k
        &&& forall|x: u64| #[trigger]
            self.is_stored(x) ==> !word::is_nan(self.exact(query@, x))
    }

    proof fn lemma_full_probe(
        &self,
        query: &[u32],
        k: int,
        n_probe: usize,
        hits: Seq<Hit>,
        probes: Seq<Candidate>,
        r: Seq<Hit>,
    )
        requires
            self.probes_all(query, k, n_probe, hits, probes, r),
        ensures
            forall|i: int|
                0 <= i < r.len() ==> (#[trigger] r[i]).dist == self.exact(query@, r[i].id)
                    && self.is_stored(r[i].id),
            forall|id: u64| #[trigger]
                self.is_stored(id) ==> candidate::holds_id(r, id) || (r.len() == k && forall|
                    i: int,
                |
                    0 <= i < r.len() ==> word::order((#[trigger] r[i]).dist) <= word::order(
                        self.exact(query@, id),
                    )),
            forall|i: int, j: int|
                0 <= i < j < r.len() ==> word::order((#[trigger] r[i]).dist) <= word::order(
                    (#[trigger] r[j]).dist,
                ),
    {
        assert forall|i: int| 0 <= i < r.len() implies (#[trigger] r[i]).dist == self.exact(
            query@,
            r[i].id,
        ) && self.is_stored(r[i].id) by {
            self.full_probe_is_exact(query, k, n_probe, hits, probes, r, r[i].id);
        }
        assert forall|id: u64| #[trigger] self.is_stored(id) implies candidate::holds_id(r, id) || (
        r.len() == k && forall|i: int|
            0 <= i < r.len() ==> word::order((#[trigger] r[i]).dist) <= word::order(
                self.exact(query@, id),
            )) by {
            self.full_probe_is_exact(query, k, n_probe, hits, probes, r, id);
        }
        let kept = choose|kept: Seq<Hit>| #[trigger]
            self.found_by_code(query@, k, probes, kept, r);
        let all = choose|all: Seq<Hit>| #[trigger]
            candidate::same_items(all, self.rescored(query@, kept)) && candidate::ranked(all) && r
                == candidate::first(all, k);
        assert forall|i: int, j: int| 0 <= i < j < r.len() implies word::order(
            (#[trigger] r[i]).dist,
        ) <= word::order((#[trigger] r[j]).dist) by {
            assert(r[i] == all[i] && r[j] == all[j]);
            assert(self.is_stored(r[i].id) && self.is_stored(r[j].id));
            word::rank_refines_order(r[i].dist, r[j].dist);
        }
    }

    proof fn lemma_no_nearer(
        &self,
        other: &Self,
        query: &[u32],
        k: int,
        n1: usize,
        hits1: Seq<Hit>,
        probes1: Seq<Candidate>,
        r1: Seq<Hit>,
        n2: usize,
        hits2: Seq<Hit>,
        probes2: Seq<Candidate>,
        r2: Seq<Hit>,
        i: int,
    )
        requires
            other.same_vectors(self),
            self.probes_all(query, k, n1, hits1, probes1, r1),
            other.probes_all(query, k, n2, hits2, probes2, r2),
            0 <= i < r1.len(),
        ensures
            i < r2.len(),
            word::order(r2[i].dist) <= word::order(r1[i].dist),
    {
        self.lemma_full_probe(query, k, n1, hits1, probes1, r1);
        other.lemma_full_probe(query, k, n2, hits2, probes2, r2);
        let x = r1.take(i + 1);
        assert(candidate::distinct(x)) by {
            assert forall|a: int, b: int| 0 <= a < b < x.len() implies (#[trigger] x[a]).id != (
            #[trigger] x[b]).id by {
                assert(x[a] == r1[a] && x[b] == r1[b]);
            }
        }
        if r2.len() <= i {
            let j = lemma_one_missing(x, r2);
            assert(x[j] == r1[j]);
            let id = r1[j].id;
            assert(self.is_stored(id));
            assert(other.is_stored(id));
        } else if word::order(r1[i].dist) < word::order(r2[i].dist) {
            let y = r2.take(i);
            let j = lemma_one_missing(x, y);
            assert(x[j] == r1[j]);
            let id = r1[j].id;
            assert(self.is_stored(id));
            assert(other.is_stored(id));
            assert(other.exact(query@, id) == self.exact(query@, id));
            assert(j < i ==> word::order(r1[j].dist) <= word::order(r1[i].dist));
            if candidate::holds_id(r2, id) {
                let m = choose|m: int| 0 <= m < r2.len() && (#[trigger] r2[m]).id == id;
                if m < i {
                    assert(y[m].id == id);
                }
                assert(i < m ==> word::order(r2[i].dist) <= word::order(r2[m].dist));
            }
        }
    }

    /// Two searches of all postings, of indexes without codes that store the same vectors,
    /// return the same number of vectors at the same distances. So it is before and after
    /// `gc`, which leaves the stored vectors as they are.
    pub proof fn full_probes_agree(
        &self,
        other: &Self,
        query: &[u32],
        k: int,
        n1: usize,
        hits1: Seq<Hit>,
        probes1: Seq<Candidate>,
        r1: Seq<Hit>,
        n2: usize,
        hits2: Seq<Hit>,
        probes2: Seq<Candidate>,
        r2: Seq<Hit>,
    )
        requires
            other.same_vectors(self),
            self.probes_all(query, k, n1, hits1, probes1, r1),
            other.probes_all(query, k, n2, hits2, probes2, r2),
        ensures
            r1.len() == r2.len(),
            forall|i: int|
                0 <= i < r1.len() ==> word::order((#[trigger] r1[i]).dist) == word::order(
                    r2[i].dist,
                ),
    {
        if r1.len() > r2.len() {
            self.lemma_no_nearer(
                other,
                query,
                k,
                n1,
                hits1,
                probes1,
                r1,
                n2,
                hits2,
                probes2,
                r2,
                r2.len() as int,
            );
        }
        if r2.len() > r1.len() {
            other.lemma_no_nearer(
                self,
                query,
                k,
                n2,
                hits2,
                probes2,
                r2,
                n1,
                hits1,
                probes1,
                r1,
                r1.len() as int,
            );
        }
        assert forall|i: int| 0 <= i < r1.len() implies word::order((#[trigger] r1[i]).dist)
            == word::order(r2[i].dist) by {
            self.lemma_no_nearer(
                other,
                query,
                k,
                n1,
                hits1,
                probes1,
                r1,
                n2,
                hits2,
                probes2,
                r2,
                i,
            );
            other.lemma_no_nearer(
                self,
                query,
                k,
                n2,
                hits2,
                probes2,
                r2,
                n1,
                hits1,
                probes1,
                r1,
                i,
            );
        }
    }

    /// Opening what was written of an index gives an index with the same content, which
    /// is searched like the one that was written.
    pub proof fn reopened_index_is_twin(
        &self,
        order: Seq<u64>,
        gone: Seq<u64>,
        m: Result<Meta, DiskAnnError>,
        graph: Result<IncrementalDiskANN<'a, D>, DiskAnnError>,
        r: Result<Self, DiskAnnError>,
    )
        requires
            self.wf(),
            self.graph.is_order(gone),
            self.graph.image(gone).len() <= usize::MAX,
            reopen::is_listing(order, self.deleted@),
            self.described(order).bytes().len() <= u64::MAX,
            Meta::read_as(self.described(order).bytes(), m),
            Self::graph_reads_as(self.graph.image(gone), self.dist, graph),
            Self::opened(m, graph, self.postings.data@, self.raw@, self.dist, r),
        ensures
            r is Ok,
            r->Ok_0.wf(),
            self.is_twin(&r->Ok_0),
            self.is_small() ==> r->Ok_0.is_small(),
            self.is_complete() ==> r->Ok_0.is_complete(),
    {
        let (config, header, base, state) = choose|
            config: IncrementalConfig,
            header: Result<Metadata, DiskAnnError>,
            base: Result<Option<DiskANN<'a, D>>, DiskAnnError>,
            state: Result<QuantizerState, DiskAnnError>,
        | #[trigger]
            IncrementalDiskANN::image_loaded(
                self.graph.image(gone),
                self.dist,
                config,
                header,
                base,
                state,
                graph,
            ) && crate::incremental::is_default(config);
        image::tidy_index_can_be_written(&self.graph);
        image::image_reads_back(&self.graph, gone, config, header, base, state, graph);
        let g = graph->Ok_0;
        like::like_indexes_hold_the_same(&self.graph, &g);
        assert(self.same_graph(&g)) by {
            assert forall|pos: int| 0 <= pos < g.total() implies #[trigger] g.vector_at(pos)
                == self.graph.vector_at(pos) by {
                assert(self.graph.vector_at(pos) == g.vector_at(pos));
            }
        }
        self.written_index_opens(order, m, g, r);
    }

    /// Opening what a snapshot leads to gives an index with the same content as the one
    /// that the snapshot was taken of, and searched like it.
    pub proof fn restored_index_is_twin(
        &self,
        base: Option<&Manifest>,
        s: Snapshot,
        block_store: Objects,
        chunk_store: Objects,
        blocks: Seq<u8>,
        raw: Seq<u32>,
        gone: Seq<u64>,
        m: Result<Meta, DiskAnnError>,
        graph: Result<IncrementalDiskANN<'a, D>, DiskAnnError>,
        r: Result<Self, DiskAnnError>,
    )
        requires
            self.wf(),
            self.is_snapshot(base, s),
            base matches Some(m) ==> snapshot::holds_blocks(self, block_store, m)
                && snapshot::holds_chunks(self, chunk_store, m),
            blocks.len() == self.block_cid@.len() * self.postings.size(),
            forall|b: int|
                0 <= b < self.block_cid@.len() ==> #[trigger] blocks.subrange(
                    b * self.postings.size(),
                    b * self.postings.size() + self.postings.size(),
                ) == snapshot::fetched(
                    snapshot::with_blocks(block_store, self, s),
                    s.manifest.block_ver@,
                    b,
                    self.postings.size(),
                ),
            raw.len() == self.next_id * self.dim,
            forall|c: int|
                0 <= c < snapshot::chunk_count(self.next_id as int) ==> bytes::word_bytes(
                    #[trigger] snapshot::chunk_in(raw, self.next_id as int, self.dim as int, c),
                ) == snapshot::with_chunks(chunk_store, self, s)(s.manifest.raw_chunk_ver@[c], c),
            self.graph.is_order(gone),
            self.graph.image(gone).len() <= usize::MAX,
            Meta::read_as(s.manifest.meta@, m),
            Self::graph_reads_as(self.graph.image(gone), self.dist, graph),
            Self::opened(m, graph, blocks, raw, self.dist, r),
        ensures
            r is Ok,
            r->Ok_0.wf(),
            self.is_twin(&r->Ok_0),
            self.is_small() ==> r->Ok_0.is_small(),
            self.is_complete() ==> r->Ok_0.is_complete(),
    {
        snapshot::snapshot_restores(self, base, s, block_store, chunk_store, blocks, raw);
        let order = choose|order: Seq<u64>| #[trigger]
            reopen::is_listing(order, self.deleted@) && s.manifest.meta@ == self.described(
                order,
            ).bytes();
        assert(s.manifest.meta.len() == s.manifest.meta@.len());
        self.reopened_index_is_twin(order, gone, m, graph, r);
    }
}

/// Of more hits than there are others, one has an id that none of the others has.
proof fn lemma_one_missing(x: Seq<Hit>, y: Seq<Hit>) -> (i: int)
    requires
        candidate::distinct(x),
        y.len() < x.len(),
    ensures
        0 <= i < x.len(),
        !candidate::holds_id(y, x[i].id),
{
    let a = x.map_values(|h: Hit| h.id);
    let b = y.map_values(|h: Hit| h.id);
    if forall|i: int| 0 <= i < x.len() ==> candidate::holds_id(y, (#[trigger] x[i]).id) {
        assert(a.no_duplicates()) by {
            assert forall|i: int, j: int| 0 <= i < a.len() && 0 <= j < a.len() && i != j implies a[i]
                != a[j] by {
                if i < j {
                    assert(x[i].id != x[j].id);
                } else {
                    assert(x[j].id != x[i].id);
                }
            }
        }
        a.unique_seq_to_set();
        b.lemma_cardinality_of_set();
        assert(a.to_set().subset_of(b.to_set())) by {
            assert forall|id: u64| a.to_set().contains(id) implies b.to_set().contains(id) by {
                let i = choose|i: int| 0 <= i < a.len() && a[i] == id;
                assert(x[i].id == id);
                let j = choose|j: int| 0 <= j < y.len() && (#[trigger] y[j]).id == id;
                assert(b[j] == id);
            }
        }
        vstd::set_lib::lemma_len_subset(a.to_set(), b.to_set());
    }
    choose|i: int| 0 <= i < x.len() && !candidate::holds_id(y, (#[trigger] x[i]).id)
}

} // verus!
