//! The graph over the centroids: it is built anew whenever postings came or went.
use crate::error::DiskAnnError;
use crate::history;
use crate::incremental::IncrementalDiskANN;
use crate::index::DiskANN;
use crate::metric::Distance;
use crate::postings::Entry;
use crate::quantizer::QuantizerState;
use crate::spfresh::SPFresh;
use crate::spfresh::SPFreshConfig;
use vstd::prelude::*;

verus! {

impl<'a, D: Distance> SPFresh<'a, D> {
    /// Nothing was added to the graph, or deleted from it, since it was built.
    pub open spec fn is_undisturbed(&self) -> bool {
        self.graph.delta.vectors@.len() == 0 && self.graph.tombstones@.len() == 0
    }

    /// The graph was built over the centroids, unless some came or went since.
    pub open spec fn is_kept_up(&self) -> bool {
        self.is_undisturbed() ==> self.is_compact()
    }

    spec fn is_current(&self) -> bool {
        self.graph.tombstones@.finite() && self.is_kept_up()
    }

    proof fn lemma_few_tombstones(&self)
        requires
            self.wf(),
        ensures
            self.graph.tombstones@.finite(),
    {
        let n = self.graph.total();
        vstd::set_lib::lemma_int_range(0, n);
        let all = vstd::set_lib::set_int_range(0, n).map(|pos: int| self.graph.global(pos));
        assert(self.graph.tombstones@.subset_of(all)) by {
            assert forall|cid: u64| #[trigger]
                self.graph.tombstones@.contains(cid) implies all.contains(cid) by {
                assert(self.in_graph(cid));
                let pos = choose|pos: int|
                    0 <= pos < self.graph.total() && #[trigger] self.graph.global(pos) == cid;
                assert(vstd::set_lib::set_int_range(0, n).contains(pos));
            }
        }
        vstd::set_lib::set_int_range(0, n).lemma_map_finite(|pos: int| self.graph.global(pos));
        vstd::set_lib::lemma_set_subset_finite(all, self.graph.tombstones@);
    }

    proof fn lemma_same_routes(&self, before: &Self)
        requires
            before.is_current(),
            self.graph == before.graph,
            self.block_cid == before.block_cid,
            self.block_centroid == before.block_centroid,
            self.dist == before.dist,
        ensures
            self.is_current(),
    {
        if self.is_undisturbed() {
            self.lemma_compact_alike(before);
        }
    }

    proof fn lemma_compact_alike(&self, before: &Self)
        requires
            before.is_compact(),
            self.graph == before.graph,
            self.block_cid == before.block_cid,
            self.block_centroid == before.block_centroid,
            self.dist == before.dist,
        ensures
            self.is_compact(),
    {
        let n = self.block_cid@.len() as int;
        assert forall|b: int| #[trigger] self.is_posting(b) == before.is_posting(b) by {}
        self.lemma_postings_same(before, n);
        let live = before.postings_upto(n);
        if live.len() > 0 {
            let (all, b) = choose|all: Vec<Vec<u32>>, b: DiskANN<'a, D>| #[trigger]
                before.is_routed_by(live, all, b);
            assert(self.is_routed_by(live, all, b));
        }
    }

    proof fn lemma_opened(&self, before: &Self, b: int, centroid: Seq<u32>)
        requires
            before.is_current(),
            self.opened_posting(before, b, centroid),
        ensures
            self.is_current(),
            self.graph.delta.vectors@.len() > 0,
    {
        let (one, r) = choose|one: Seq<Vec<u32>>, r: Result<Vec<u64>, DiskAnnError>| #[trigger]
            IncrementalDiskANN::added(&before.graph, one, &self.graph, r) && one.len() == 1
                && one[0]@ == centroid && r is Ok && r->Ok_0@[0] == self.block_cid@[b];
        assert(history::took_centroid(
            &before.graph,
            centroid,
            self.block_cid@[b],
            &self.graph,
        ));
        assert(self.graph.total() == before.graph.total() + 1);
        assert(self.graph.tombstones == before.graph.tombstones);
    }

    proof fn lemma_given_up(&self, before: &Self, b: int)
        requires
            before.is_current(),
            self.gave_up(before, b),
        ensures
            self.is_current(),
    {
        let cid = before.block_cid@[b];
        let gone = seq![cid];
        assert(gone[0] == cid);
        assert(gone.to_set().contains(cid));
        assert(gone.to_set() =~= set![cid]) by {
            assert forall|x: u64| #[trigger] gone.to_set().contains(x) <==> x == cid by {}
        }
        assert(self.graph.tombstones@ =~= before.graph.tombstones@.insert(cid));
        assert(self.graph.tombstones@.contains(cid));
        assert(self.graph.tombstones@.len() > 0) by {
            if self.graph.tombstones@.len() == 0 {
                self.graph.tombstones@.lemma_len0_is_empty();
            }
        }
    }

    proof fn lemma_reassigned_routes(
        &self,
        before: &Self,
        list: Seq<u32>,
        skip: Seq<u32>,
        cands: Seq<u32>,
        upto: int,
    )
        requires
            before.is_current(),
            self.reassigned(before, list, skip, cands, upto),
        ensures
            self.is_current(),
        decreases upto,
    {
        if upto > 0 {
            let q = list[upto - 1];
            let mid = choose|mid: Self|
                mid.reassigned(before, list, skip, cands, upto - 1)
                    && #[trigger] self.reassigned_one(&mid, q, skip, cands);
            mid.lemma_reassigned_routes(before, list, skip, cands, upto - 1);
            self.lemma_same_routes(&mid);
        }
    }

    proof fn lemma_split_routes(&self, before: &Self, b: int)
        requires
            before.is_current(),
            self.was_split(before, b),
        ensures
            self.is_current(),
    {
        if before.live_in(b).len() < 2 {
            self.lemma_same_routes(before);
        } else {
            let (cut, mid, vs, nb, around) = choose|
                cut: Self,
                mid: Self,
                vs: Seq<Vec<u32>>,
                nb: Seq<u32>,
                around: Seq<u32>,
            | #[trigger] self.is_split(before, b, &cut, &mid, vs, nb, around);
            let (low, high) = (nb[0] as int, nb[1] as int);
            let (pair, _) = crate::bisect::bisected(before.dist, vs);
            reveal(SPFresh::is_parted);
            let (rest, one, two) = choose|rest: Self, one: Self, two: Self|
                #![trigger one.opened_posting(&rest, low, pair.low), two.opened_posting(&one, high, pair.high)]
                rest.gave_up(before, b) && one.opened_posting(&rest, low, pair.low)
                    && two.opened_posting(&one, high, pair.high) && cut.same_routing(&two);
            rest.lemma_given_up(before, b);
            one.lemma_opened(&rest, low, pair.low);
            two.lemma_opened(&one, high, pair.high);
            cut.lemma_same_routes(&two);
            mid.lemma_reassigned_routes(&cut, nb, Seq::empty(), around, 2);
            self.lemma_reassigned_routes(&mid, around, nb, nb, around.len() as int);
        }
    }

    proof fn lemma_tidied_routes(&self, before: &Self, n: nat)
        requires
            before.is_current(),
            self.tidied_in(before, n),
        ensures
            self.is_current(),
        decreases n,
    {
        if n > 0 {
            let mid = choose|mid: Self|
                mid.tidied_in(before, (n - 1) as nat) && #[trigger] self.is_tidier(&mid);
            mid.lemma_tidied_routes(before, (n - 1) as nat);
            if exists|b: int| #[trigger]
                self.was_split(&mid, b) && mid.posting(b).len() >= mid.cfg.max_posting_size {
                let b = choose|b: int| #[trigger]
                    self.was_split(&mid, b) && mid.posting(b).len() >= mid.cfg.max_posting_size;
                self.lemma_split_routes(&mid, b);
            } else {
                self.lemma_same_routes(&mid);
            }
        }
    }

    proof fn lemma_put_routes(&self, before: &Self, b: int, id: u64)
        requires
            before.is_current(),
            self.put_in(before, b, id),
        ensures
            self.is_current(),
    {
        let mid = choose|mid: Self| #[trigger]
            mid.gained(before, b, id) && if mid.posting(b).len() >= mid.cfg.max_posting_size {
                self.tidied(&mid)
            } else {
                *self == mid
            };
        mid.lemma_same_routes(before);
        if mid.posting(b).len() >= mid.cfg.max_posting_size {
            let n = choose|n: nat| #[trigger] self.tidied_in(&mid, n);
            self.lemma_tidied_routes(&mid, n);
        }
    }

    proof fn lemma_placed_routes(&self, start: &Self, first: u64, upto: int)
        requires
            start.is_current(),
            self.placed_all(start, first, upto),
        ensures
            self.is_current(),
        decreases upto,
    {
        if upto > 0 {
            let id = (first + (upto - 1)) as u64;
            let (mid, target) = choose|mid: Self, target: Option<u32>|
                mid.placed_all(start, first, upto - 1) && start.is_target(id, target)
                    && #[trigger] self.placed(&mid, id, target);
            mid.lemma_placed_routes(start, first, upto - 1);
            self.lemma_one_placed_routes(&mid, id, target);
        }
    }

    proof fn lemma_one_placed_routes(&self, before: &Self, id: u64, target: Option<u32>)
        requires
            before.is_current(),
            self.placed(before, id, target),
        ensures
            self.is_current(),
    {
        if exists|b: int| #[trigger] self.put_in(before, b, id) {
            let b = choose|b: int| #[trigger] self.put_in(before, b, id);
            self.lemma_put_routes(before, b, id);
        } else {
            let v = before.raw_at(id as int);
            let (mid, b) = choose|mid: Self, b: int| #[trigger]
                mid.opened_posting(before, b, v) && self.put_in(&mid, b, id);
            mid.lemma_opened(before, b, v);
            self.lemma_put_routes(&mid, b, id);
        }
    }

    proof fn lemma_chunk_routes(&self, before: &Self, first: u64, count: int)
        requires
            before.is_current(),
            self.took_chunk(before, first, count),
        ensures
            self.is_current(),
    {
        let (start, end) = choose|start: Self, end: Self|
            #![trigger start.has_begun(before), end.placed_all(&start, first, count)]
            start.has_begun(before) && end.placed_all(&start, first, count)
                && if end.graph.is_due() {
                self.is_rebuilt(&end)
            } else {
                *self == end
            };
        start.lemma_same_routes(before);
        end.lemma_placed_routes(&start, first, count);
    }

    proof fn lemma_chunks_routes(&self, before: &Self, first: u64, n: int, upto: int)
        requires
            before.is_current(),
            self.took_chunks(before, first, n, upto),
        ensures
            self.is_current(),
        decreases upto,
    {
        if upto > 0 {
            let (mid, done) = choose|mid: Self, done: int|
                0 <= done < upto && mid.took_chunks(before, first, n, done)
                    && #[trigger] self.took_next(&mid, first, n, done, upto);
            mid.lemma_chunks_routes(before, first, n, done);
            self.lemma_chunk_routes(&mid, (first + done) as u64, upto - done);
        }
    }

    proof fn lemma_dealt_routes(&self, before: &Self, entries: Seq<Entry>, upto: int)
        requires
            before.is_current(),
            self.dealt_out(before, entries, upto),
        ensures
            self.is_current(),
        decreases upto,
    {
        if upto > 0 {
            let id = entries[upto - 1].id;
            let (mid, t) = choose|mid: Self, t: int|
                mid.dealt_out(before, entries, upto - 1) && mid.is_home(id, t)
                    && #[trigger] self.put_in(&mid, t, id);
            mid.lemma_dealt_routes(before, entries, upto - 1);
            self.lemma_put_routes(&mid, t, id);
        }
    }

    proof fn lemma_tended_routes(&self, before: &Self, upto: int)
        requires
            before.is_current(),
            self.tended_all(before, upto),
        ensures
            self.is_current(),
        decreases upto,
    {
        if upto > 0 {
            let mid = choose|mid: Self|
                mid.tended_all(before, upto - 1) && #[trigger] self.tended(&mid, upto - 1);
            mid.lemma_tended_routes(before, upto - 1);
            let b = upto - 1;
            let live = mid.live_in(b);
            if mid.is_posting(b) && live.len() < mid.cfg.min_posting_size && mid.cid_block@.len()
                > 1 {
                let rest = choose|rest: Self| #[trigger]
                    rest.gave_up(&mid, b) && self.dealt_out(&rest, live, live.len() as int);
                rest.lemma_given_up(&mid, b);
                self.lemma_dealt_routes(&rest, live, live.len() as int);
            } else {
                self.lemma_same_routes(&mid);
            }
        }
    }

    /// After inserting, the graph is one that was built over the centroids.
    pub proof fn inserting_keeps_the_graph_up(&self, before: &Self, vectors: Seq<Vec<u32>>)
        requires
            before.wf(),
            before.is_kept_up(),
            self.has_inserted(before, vectors),
        ensures
            self.is_compact(),
    {
        before.lemma_few_tombstones();
        let (stored, end) = choose|stored: Self, end: Self|
            #![trigger stored.same_postings(before), self.is_settled(&end)]
            stored.same_postings(before) && stored.is_longer_by(before, vectors)
                && end.took_chunks(
                &stored,
                before.next_id,
                vectors.len() as int,
                vectors.len() as int,
            ) && self.is_settled(&end);
        stored.lemma_same_routes(before);
        end.lemma_chunks_routes(
            &stored,
            before.next_id,
            vectors.len() as int,
            vectors.len() as int,
        );
    }

    /// After collecting garbage, the graph is one that was built over the centroids.
    pub proof fn collecting_keeps_the_graph_up(&self, before: &Self)
        requires
            before.wf(),
            before.is_kept_up(),
            self.has_collected(before),
        ensures
            self.is_compact(),
    {
        before.lemma_few_tombstones();
        let (start, end) = choose|start: Self, end: Self|
            #![trigger start.has_begun(before), self.is_settled(&end)]
            start.has_begun(before) && end.tended_all(&start, start.block_cid@.len() as int)
                && self.is_settled(&end);
        start.lemma_same_routes(before);
        end.lemma_tended_routes(&start, start.block_cid@.len() as int);
    }

    proof fn lemma_opened_at_routes(
        &self,
        start: &Self,
        vectors: Seq<Vec<u32>>,
        picks: Seq<usize>,
    )
        requires
            start.is_unused(),
            self.opened_at(start, vectors, picks),
        ensures
            self.is_current(),
        decreases picks.len(),
    {
        if picks.len() == 0 {
            assert(self.postings_upto(0).len() == 0);
        } else {
            let c = vectors[picks.last() as int]@;
            let (mid, b) = choose|mid: Self, b: int|
                mid.opened_at(start, vectors, picks.drop_last()) && #[trigger] self.opened_posting(
                    &mid,
                    b,
                    c,
                );
            mid.lemma_opened_at_routes(start, vectors, picks.drop_last());
            self.lemma_opened(&mid, b, c);
        }
    }

    /// The graph of a new index is one that was built over the centroids.
    pub proof fn new_index_has_its_graph(
        &self,
        vectors: Seq<Vec<u32>>,
        dist: D,
        cfg: SPFreshConfig,
        quantizer: Option<QuantizerState>,
    )
        requires
            Self::built(vectors, dist, cfg, quantizer, Ok(*self)),
        ensures
            self.is_compact(),
    {
        let (seeds, picks, blocks) = choose|seeds: Self, picks: Seq<usize>, blocks: Seq<u32>|
            #[trigger] self.grew(&seeds, vectors, picks, blocks);
        let start = choose|start: Self| #[trigger]
            seeds.opened_at(&start, vectors, picks) && start.is_unused();
        seeds.lemma_opened_at_routes(&start, vectors, picks);
        let (stored, end) = choose|stored: Self, end: Self|
            #![trigger stored.same_postings(&seeds), self.is_settled(&end)]
            stored.same_postings(&seeds) && stored.is_longer_by(&seeds, vectors)
                && end.took_chunks(
                &stored,
                seeds.next_id,
                vectors.len() as int,
                vectors.len() as int,
            ) && self.is_settled(&end);
        stored.lemma_same_routes(&seeds);
        end.lemma_chunks_routes(&stored, seeds.next_id, vectors.len() as int, vectors.len() as int);
    }
}

} // verus!
