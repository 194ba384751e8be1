//! How the postings of an index are kept in size, and what a search of them may skip.
use crate::beam::Trace;
use crate::bisect;
use crate::bytes;
use crate::candidate;
use crate::candidate::{Candidate, Hit};
use crate::history;
use crate::incremental::IncrementalDiskANN;
use crate::index;
use crate::index::DiskANN;
use crate::meta::Meta;
use crate::metric::Distance;
use crate::postings::Entry;
use crate::probe::Score;
use crate::quantizer::Prepared;
use crate::rabitq;
use crate::reopen;
use crate::select;
use crate::spfresh;
use crate::spfresh::{Move, SPFresh, SPFreshConfig};
use crate::upkeep;
use crate::word;
use vstd::prelude::*;

verus! {

/// How many postings an index starts with: one for every half posting of vectors, a posting
/// counting as two entries at least, and one in any case.
pub proof fn index_starts_with_half_full_postings(cfg: SPFreshConfig, n: int)
    requires
        0 <= n,
    ensures
        ({
            let most = if cfg.max_posting_size <= 2 {
                2
            } else {
                cfg.max_posting_size as int
            };
            let k = upkeep::starting_postings(cfg, n);
            &&& k >= 1
            &&& k > 1 ==> k * (most / 2) <= n
            &&& n < (k + 1) * (most / 2)
        }),
{
    let most = if cfg.max_posting_size <= 2 {
        2
    } else {
        cfg.max_posting_size as int
    };
    let half = most / 2;
    vstd::arithmetic::div_mod::lemma_fundamental_div_mod(n, half);
    vstd::arithmetic::div_mod::lemma_mod_division_less_than_divisor(n, half);
    let q = n / half;
    assert(q * half == half * q) by (nonlinear_arith);
    assert((q + 1) * half == half * q + half) by (nonlinear_arith);
    if q < 1 {
        assert(q == 0) by {
            vstd::arithmetic::div_mod::lemma_div_pos_is_pos(n, half);
        }
        assert(half * q == 0) by (nonlinear_arith)
            requires
                q == 0,
        ;
        assert(2 * half > n);
    }
}

/// A configuration is taken as it is, but for postings of fewer than two entries.
pub proof fn tiny_postings_are_raised(cfg: SPFreshConfig)
    ensures
        ({
            let r = upkeep::raised(cfg);
            &&& cfg.max_posting_size >= 2 ==> r == cfg
            &&& cfg.max_posting_size < 2 ==> r.max_posting_size == 2
            &&& r.min_posting_size == cfg.min_posting_size
            &&& r.probe_ratio == cfg.probe_ratio
            &&& r.rerank_size == cfg.rerank_size
            &&& r.reassign_neighbors == cfg.reassign_neighbors
            &&& r.centroid_beam == cfg.centroid_beam
        }),
{
}

/// Deleting ids deletes those that were given out, and no others.
pub proof fn known_ids_are_deleted(deleted: Set<u64>, ids: Seq<u64>, next_id: u64, id: u64)
    ensures
        deleted.contains(id) ==> upkeep::deleted_with(deleted, ids, next_id).contains(id),
        !ids.contains(id) || next_id <= id ==> upkeep::deleted_with(
            deleted,
            ids,
            next_id,
        ).contains(id) == deleted.contains(id),
        ids.contains(id) && id < next_id ==> upkeep::deleted_with(deleted, ids, next_id).contains(
            id,
        ),
{
}

proof fn lemma_without(entries: Seq<Entry>, deleted: Set<u64>, upto: int)
    requires
        0 <= upto <= entries.len(),
    ensures
        spfresh::without(entries, deleted, upto) == entries.take(upto).filter(
            |e: Entry| !deleted.contains(e.id),
        ),
    decreases upto,
{
    let alive = |e: Entry| !deleted.contains(e.id);
    reveal(Seq::filter);
    if upto > 0 {
        lemma_without(entries, deleted, upto - 1);
        assert(entries.take(upto).drop_last() =~= entries.take(upto - 1));
        assert(entries.take(upto).last() == entries[upto - 1]);
    } else {
        assert(entries.take(0).filter(alive) =~= Seq::empty());
    }
}

impl<'a, D: Distance> SPFresh<'a, D> {
    /// The entries of posting `b` whose vectors were not deleted.
    pub open spec fn alive(&self, b: int) -> Seq<Entry> {
        self.posting(b).filter(|e: Entry| !self.deleted@.contains(e.id))
    }

    proof fn lemma_alive(&self, b: int)
        ensures
            self.live_in(b) == self.alive(b),
    {
        lemma_without(self.posting(b), self.deleted@, self.posting(b).len() as int);
        assert(self.posting(b).take(self.posting(b).len() as int) =~= self.posting(b));
    }

    /// Looking after a posting: with fewer live entries than the configuration asks for it
    /// is given up, unless it is the only one, and its live entries are dealt out to the
    /// others, which had stayed as they were; else it keeps just its live entries.
    pub proof fn small_postings_are_given_up(&self, before: &Self, b: int)
        requires
            before.is_posting(b),
            self.tended(before, b),
        ensures
            if before.alive(b).len() < before.cfg.min_posting_size && before.cid_block@.len() > 1 {
                exists|mid: Self|
                    #![trigger mid.dealt_out(&mid, before.alive(b), 0), mid.is_posting(b)]
                    !mid.is_posting(b) && (forall|c: int| #[trigger]
                        before.is_posting(c) && c != b ==> mid.is_posting(c) && mid.posting(c)
                            == before.posting(c) && mid.centroid(c) == before.centroid(c))
                        && self.dealt_out(&mid, before.alive(b), before.alive(b).len() as int)
            } else {
                &&& self.is_posting(b)
                &&& self.posting(b) == before.alive(b)
                &&& forall|c: int|
                    c != b && 0 <= c < before.postings.count ==> #[trigger] self.posting(c)
                        == before.posting(c)
            },
    {
        before.lemma_alive(b);
        let live = before.live_in(b);
        if live.len() < before.cfg.min_posting_size && before.cid_block@.len() > 1 {
            let mid = choose|mid: Self| #[trigger]
                mid.gave_up(before, b) && self.dealt_out(&mid, live, live.len() as int);
            assert(mid.dealt_out(&mid, before.alive(b), 0));
            assert(!mid.is_posting(b));
        } else if live.len() != before.posting(b).len() {
            assert forall|c: int|
                c != b && 0 <= c < before.postings.count implies #[trigger] self.posting(c)
                == before.posting(c) by {
                assert(self.postings.block(c) == before.postings.block(c));
            }
        } else {
            self.lemma_all_alive(before, b);
        }
    }

    proof fn lemma_all_alive(&self, before: &Self, b: int)
        requires
            before.live_in(b).len() == before.posting(b).len(),
        ensures
            before.posting(b) == before.live_in(b),
    {
        lemma_whole(before.posting(b), before.deleted@, before.posting(b).len() as int);
        assert(before.posting(b).take(before.posting(b).len() as int) =~= before.posting(b));
    }

    /// A vector put into a posting stands at its end, with its code about that centroid; the
    /// posting is seen to once it holds as many entries as the configuration allows, and not
    /// before.
    pub proof fn full_postings_are_seen_to(&self, before: &Self, b: int, id: u64)
        requires
            self.put_in(before, b, id),
        ensures
            exists|mid: Self|
                #![trigger mid.posting(b)]
                mid.posting(b) == before.posting(b) + seq![
                    Entry {
                        id,
                        code: before.code_for(before.raw_at(id as int), before.centroid(b)),
                    },
                ] && mid.same_routing(before) && if before.posting(b).len() + 1
                    < before.cfg.max_posting_size {
                    *self == mid
                } else {
                    self.tidied(&mid)
                },
    {
        let mid = choose|mid: Self| #[trigger]
            mid.gained(before, b, id) && if mid.posting(b).len() >= mid.cfg.max_posting_size {
                self.tidied(&mid)
            } else {
                *self == mid
            };
        let e = Entry { id, code: before.code_for(before.raw_at(id as int), before.centroid(b)) };
        assert(mid.posting(b) =~= before.posting(b) + seq![e]);
        assert(mid.same_routing(before));
    }

    /// What stands in a posting for a vector: its components, or the quantizer's code of it,
    /// which for codes of bits is about the posting's centroid.
    pub proof fn entries_are_coded(&self, b: int, i: int)
        requires
            self.wf(),
            self.is_posting(b),
            0 <= i < self.posting(b).len(),
        ensures
            ({
                let e = self.posting(b)[i];
                let v = self.raw@.subrange(e.id * self.dim, e.id * self.dim + self.dim);
                &&& e.id < self.next_id
                &&& self.quantizer is None ==> e.code == bytes::word_bytes(v)
                &&& self.quantizer is Some && self.quantizer->0 is RaBitQ ==> e.code
                    == self.quantizer->0->RaBitQ_0.code_of(self.dist, v, self.centroid(b))
                &&& self.quantizer is Some && !(self.quantizer->0 is RaBitQ) ==> e.code
                    == self.quantizer->0.code_of(self.dist, v)
            }),
    {
        assert(self.posting(b)[i].id < self.next_id);
    }

    /// Vectors are inserted 4096 at a time, the last time the rest.
    pub proof fn vectors_come_in_chunks(
        &self,
        before: &Self,
        first: u64,
        n: int,
        done: int,
        upto: int,
    )
        requires
            0 <= done < n,
            self.took_next(before, first, n, done, upto),
        ensures
            upto == if n <= done + 4096 {
                n
            } else {
                done + 4096
            },
            self.took_chunk(before, (first + done) as u64, upto - done),
    {
    }

    /// A block for a new posting is one that was freed before the present epoch, the first
    /// such in the list, which leaves the list; where there is none, a new block.
    pub proof fn blocks_rest_for_an_epoch(&self, before: &Self, b: int)
        requires
            self.took_block(before, b),
        ensures
            (exists|i: int|
                0 <= i < before.free@.len() && (#[trigger] before.free@[i]).1 < before.epoch
                    && before.free@[i].0 == b && self.free@.len() == before.free@.len() - 1 && (
                forall|j: int| 0 <= j < i ==> (#[trigger] before.free@[j]).1 >= before.epoch)) || (b
                == before.block_cid@.len() && self.free@ == before.free@ && forall|j: int|
                0 <= j < before.free@.len() ==> (#[trigger] before.free@[j]).1 >= before.epoch),
    {
        lemma_first_old(before.free@, before.epoch, 0);
        let i = history::first_old(before.free@, before.epoch, 0);
        if i < before.free@.len() {
            assert(before.free@[i].1 < before.epoch);
            assert(self.free@.len() == before.free@.len() - 1);
        }
    }

    /// The postings whose entries may move after a split are the nearest to the new
    /// centroid: two more than the configuration says.
    pub proof fn entries_move_around_a_split(&self, p: int, r: Seq<u32>, b: int)
        requires
            self.wf(),
            self.cid_block@.len() <= 4096,
            self.is_around(p, r),
            self.is_posting(b),
        ensures
            r.len() <= self.cfg.reassign_neighbors + 2,
            forall|i: int| 0 <= i < r.len() ==> self.is_posting((#[trigger] r[i]) as int),
            r.contains(b as u32) || (r.len() == self.cfg.reassign_neighbors + 2 && forall|i: int|
                0 <= i < r.len() ==> word::rank(
                    self.dist.eval_spec(self.centroid(p), self.centroid((#[trigger] r[i]) as int)),
                ) <= word::rank(self.dist.eval_spec(self.centroid(p), self.centroid(b)))),
    {
        let (v, hits, found) = choose|v: &[u32], hits: Seq<Hit>, found: Seq<Candidate>| #[trigger]
            self.nearest_result(v, self.cfg.reassign_neighbors + 2, hits, found) && v@
                == self.centroid(p) && r == index::ids(found);
        self.nearest_postings_are_found(v, self.cfg.reassign_neighbors + 2, hits, found, b);
        assert forall|i: int| 0 <= i < r.len() implies self.is_posting((#[trigger] r[i]) as int) by {
            assert(r[i] == found[i].id);
        }
        if candidate::holds_id(found, b as u32) {
            let i = choose|i: int| 0 <= i < found.len() && (#[trigger] found[i]).id == b as u32;
            assert(r[i] == b as u32);
        } else {
            assert forall|i: int| 0 <= i < r.len() implies word::rank(
                self.dist.eval_spec(self.centroid(p), self.centroid((#[trigger] r[i]) as int)),
            ) <= word::rank(self.dist.eval_spec(self.centroid(p), self.centroid(b))) by {
                assert(r[i] == found[i].id);
                assert(found[i].dist == self.away(v@, found[i].id as int));
            }
        }
    }

    /// Among more than 4096 postings the graph of centroids is searched, with the beam of
    /// the configuration or as many as are looked for, whichever is more.
    pub proof fn many_postings_are_found_by_the_graph(
        &self,
        v: &[u32],
        n: int,
        hits: Seq<Hit>,
        r: Seq<Candidate>,
    )
        requires
            self.cid_block@.len() > 4096,
            self.nearest_result(v, n, hits, r),
        ensures
            exists|
                wide: int,
                prep: Prepared,
                t: Trace,
                found: Seq<Candidate>,
                kept: Seq<Candidate>,
            | #[trigger]
                self.graph.search_result(v, n, wide, prep, t, found, kept, hits) && wide >= n
                    && wide >= self.cfg.centroid_beam && (wide == n || wide
                    == self.cfg.centroid_beam),
            forall|i: int| 0 <= i < r.len() ==> self.is_block_of_one(hits, #[trigger] r[i]),
    {
        self.lemma_blocks(hits);
        let (prep, t, found, kept) = choose|
            prep: Prepared,
            t: Trace,
            found: Seq<Candidate>,
            kept: Seq<Candidate>,
        | #[trigger]
            self.graph.search_result(v, n, self.beam_for(n), prep, t, found, kept, hits);
        assert(self.graph.search_result(v, n, self.beam_for(n), prep, t, found, kept, hits));
    }

    /// The candidate is the block of one of the hits, at its distance.
    pub open spec fn is_block_of_one(&self, hits: Seq<Hit>, c: Candidate) -> bool {
        exists|j: int|
            0 <= j < hits.len() && self.cid_block@.contains_key((#[trigger] hits[j]).id) && c.id
                == self.cid_block@[hits[j].id] && c.dist == hits[j].dist
    }

    proof fn lemma_blocks(&self, hits: Seq<Hit>)
        ensures
            forall|i: int|
                0 <= i < self.blocks_of(hits).len() ==> self.is_block_of_one(
                    hits,
                    #[trigger] self.blocks_of(hits)[i],
                ),
        decreases hits.len(),
    {
        if hits.len() > 0 {
            let fewer = hits.drop_last();
            self.lemma_blocks(fewer);
            let part = self.blocks_of(fewer);
            let all = self.blocks_of(hits);
            assert forall|i: int| 0 <= i < all.len() implies self.is_block_of_one(
                hits,
                #[trigger] all[i],
            ) by {
                if i < part.len() {
                    assert(all[i] == part[i]);
                    assert(self.is_block_of_one(fewer, part[i]));
                    let j = choose|j: int|
                        0 <= j < fewer.len() && self.cid_block@.contains_key(
                            (#[trigger] fewer[j]).id,
                        ) && part[i].id == self.cid_block@[fewer[j].id] && part[i].dist
                            == fewer[j].dist;
                    assert(hits[j] == fewer[j]);
                } else {
                    let j = hits.len() - 1;
                    assert(hits[j] == hits.last());
                    assert(self.cid_block@.contains_key(hits[j].id));
                }
            }
        }
    }

    /// No posting holds more entries than the largest count, and one holds as many, unless
    /// all are empty.
    pub proof fn largest_is_largest(&self, b: int)
        requires
            self.is_posting(b),
        ensures
            self.posting(b).len() <= self.largest(self.block_cid@.len() as int),
            self.largest(self.block_cid@.len() as int) == 0 || exists|c: int|
                self.is_posting(c) && #[trigger] self.posting(c).len() == self.largest(
                    self.block_cid@.len() as int,
                ),
    {
        self.lemma_largest(self.block_cid@.len() as int, b);
    }

    proof fn lemma_largest(&self, upto: int, b: int)
        requires
            0 <= upto <= self.block_cid@.len(),
        ensures
            0 <= self.largest(upto),
            b < upto && self.is_posting(b) ==> self.posting(b).len() <= self.largest(upto),
            self.largest(upto) == 0 || exists|c: int|
                self.is_posting(c) && #[trigger] self.posting(c).len() == self.largest(upto),
        decreases upto,
    {
        if upto > 0 {
            self.lemma_largest(upto - 1, b);
            if self.is_posting(upto - 1) && self.posting(upto - 1).len() > self.largest(upto - 1) {
                assert(self.posting(upto - 1).len() == self.largest(upto));
            }
        }
    }

    /// A search looks into one posting at least, and else into as many as it is told, up to
    /// a sixteenth of what can be counted.
    pub proof fn searches_look_somewhere(n_probe: usize)
        ensures
            n_probe == 0 ==> Self::probes_for(n_probe) == 1,
            0 < n_probe <= usize::MAX / 16 ==> Self::probes_for(n_probe) == n_probe,
            n_probe > usize::MAX / 16 ==> Self::probes_for(n_probe) == usize::MAX / 16,
    {
    }

    /// The graph of centroids was built anew: with degree 32, beam 256 and 1.2, over the
    /// centroids of all postings in the order of their blocks, which are named in turn.
    pub proof fn graphs_are_built_over_centroids(&self, before: &Self)
        requires
            self.wf(),
            self.is_rebuilt(before),
            self.postings_upto(self.block_cid@.len() as int).len() > 0,
        ensures
            self.postings == before.postings,
            self.block_centroid == before.block_centroid,
            self.graph.delta.vectors@.len() == 0,
            self.graph.tombstones@ == Set::<u64>::empty(),
            exists|all: Vec<Vec<u32>>, base: DiskANN<'a, D>| #[trigger]
                base.is_built_from(&all, 32, 256, 0x3f99_999a, self.dist) && self.graph.base
                    == Some(base) && self.are_centroids(all@),
    {
        let live = self.postings_upto(self.block_cid@.len() as int);
        let (all, base) = choose|all: Vec<Vec<u32>>, base: DiskANN<'a, D>| #[trigger]
            self.is_routed_by(live, all, base);
        self.lemma_live_postings(self.block_cid@.len() as int);
        assert(base.is_built_from(&all, 32, 256, 0x3f99_999a, self.dist));
        assert forall|b: int| #[trigger] self.is_posting(b) implies exists|i: int|
            0 <= i < all@.len() && (#[trigger] all@[i])@ == self.centroid(b)
                && self.block_cid@[b] == i by {
            let i = choose|i: int| 0 <= i < live.len() && live[i] == b as u32;
            assert(all@[i]@ == self.centroid(live[i] as int));
            assert(self.block_cid@[live[i] as int] == i);
        }
    }

    /// Each posting's centroid is among the vectors, at the place that the posting is named
    /// after.
    pub open spec fn are_centroids(&self, all: Seq<Vec<u32>>) -> bool {
        forall|b: int| #[trigger]
            self.is_posting(b) ==> exists|i: int|
                0 <= i < all.len() && (#[trigger] all[i])@ == self.centroid(b)
                    && self.block_cid@[b] == i
    }

    proof fn lemma_live_postings(&self, upto: int)
        requires
            0 <= upto <= self.block_cid@.len(),
        ensures
            forall|b: int|
                b < upto && #[trigger] self.is_posting(b) ==> self.postings_upto(upto).contains(
                    b as u32,
                ),
        decreases upto,
    {
        if upto > 0 {
            self.lemma_live_postings(upto - 1);
            let part = self.postings_upto(upto - 1);
            let all = self.postings_upto(upto);
            assert forall|b: int| b < upto && #[trigger] self.is_posting(b) implies all.contains(
                b as u32,
            ) by {
                if b < upto - 1 {
                    let i = choose|i: int| 0 <= i < part.len() && part[i] == b as u32;
                    assert(all[i] == b as u32);
                } else {
                    assert(all[part.len() as int] == b as u32);
                }
            }
        }
    }

    /// At the end of an insertion or a collection the graph is built anew just when
    /// centroids came or went since it was built.
    pub proof fn graphs_are_settled(&self, before: &Self)
        requires
            self.is_settled(before),
        ensures
            before.graph.delta.vectors@.len() == 0 && before.graph.tombstones@.len() == 0
                ==> *self == *before,
            before.graph.delta.vectors@.len() > 0 || before.graph.tombstones@.len() > 0
                ==> self.is_rebuilt(before),
    {
    }

    /// A posting is split when it holds as many entries as are allowed. With fewer than two
    /// live entries it only loses the others. Else it is given up, and each of its live
    /// entries is in the one of two new postings whose side of the cut its vector is on;
    /// every other posting is as it was.
    pub proof fn cut_postings_are_dealt_to_two(
        &self,
        before: &Self,
        b: int,
        vs: Seq<Vec<u32>>,
        low: int,
        high: int,
        i: int,
    )
        requires
            self.cut(before, b, vs, low, high),
            0 <= i < before.alive(b).len(),
        ensures
            ({
                let (pair, side) = bisect::bisected(before.dist, vs);
                let id = before.alive(b)[i].id;
                &&& vs.len() == before.alive(b).len()
                &&& vs[i]@ == before.raw_at(id as int)
                &&& low != high
                &&& self.centroid(low) == pair.low
                &&& self.centroid(high) == pair.high
                &&& side[i] ==> self.holds_id(high, id)
                &&& !side[i] ==> self.holds_id(low, id)
                &&& forall|c: int| #[trigger]
                    before.is_posting(c) && c != b ==> self.is_posting(c) && self.posting(c)
                        == before.posting(c) && self.centroid(c) == before.centroid(c)
            }),
    {
        before.lemma_alive(b);
        let _ = before.live_in(b)[i];
        assert(vs[i]@ == before.raw_at(before.live_in(b)[i].id as int));
    }

    /// A posting that is given up leaves its block to the free ones, at the end of their
    /// list, marked with the present epoch; its centroid is deleted from the graph.
    pub proof fn given_up_blocks_are_listed(&self, before: &Self, b: int)
        requires
            self.gave_up(before, b),
        ensures
            self.free@.len() == before.free@.len() + 1,
            self.free@.last() == (b as u32, before.epoch),
            !self.is_posting(b),
            self.graph.tombstones@.contains(before.block_cid@[b]),
            self.graph.delta == before.graph.delta,
            self.graph.base == before.graph.base,
    {
        assert(!self.is_posting(b));
        let ids = seq![before.block_cid@[b]];
        assert(ids[0] == before.block_cid@[b]);
        assert(ids.to_set().contains(before.block_cid@[b]));
    }

    /// A new epoch has the next number, and no posting is new in it yet.
    pub proof fn epochs_are_numbered(&self, before: &Self)
        requires
            self.has_begun(before),
        ensures
            self.epoch == before.epoch + 1,
            self.created@.len() == 0,
            self.postings == before.postings,
            self.free == before.free,
    {
    }

    /// A new posting is empty, is about the centroid given, which was added to the graph,
    /// and is counted among the new ones; every other posting is as it was.
    pub proof fn new_postings_are_empty(&self, before: &Self, b: int, centroid: Seq<u32>, c: int)
        requires
            self.opened_posting(before, b, centroid),
            before.is_posting(c),
        ensures
            self.is_posting(b),
            self.posting(b).len() == 0,
            self.centroid(b) == centroid,
            c != b,
            self.posting(c) == before.posting(c),
            self.centroid(c) == before.centroid(c),
            self.created@.len() == before.created@.len() + 1,
            self.created@.last() == b as u32,
    {
    }

    /// The posting for a vector is looked for in the index as it was before the first vector
    /// of its chunk was placed: the nearest.
    pub proof fn targets_are_nearest(&self, id: u64, target: Option<u32>, b: int)
        requires
            self.wf(),
            self.cid_block@.len() <= 4096,
            self.is_target(id, target),
            self.is_posting(b),
        ensures
            target is Some,
            self.is_posting(target->0 as int),
            word::rank(
                self.dist.eval_spec(self.raw_at(id as int), self.centroid(target->0 as int)),
            ) <= word::rank(self.dist.eval_spec(self.raw_at(id as int), self.centroid(b))),
    {
        let (v, hits, found) = choose|v: &[u32], hits: Seq<Hit>, found: Seq<Candidate>| #[trigger]
            self.nearest_result(v, 1, hits, found) && v@ == self.raw_at(id as int) && target
                == if found.len() > 0 {
                Some(found[0].id)
            } else {
                None
            };
        self.nearest_postings_are_found(v, 1, hits, found, b);
        if candidate::holds_id(found, b as u32) {
            let i = choose|i: int| 0 <= i < found.len() && (#[trigger] found[i]).id == b as u32;
            assert(i == 0);
        }
        assert(found[0].dist == self.away(v@, found[0].id as int));
    }

    /// Entries of a posting that was given up go to the nearest of those left.
    pub proof fn homes_are_nearest(&self, id: u64, t: int, b: int)
        requires
            self.wf(),
            self.cid_block@.len() <= 4096,
            self.is_home(id, t),
            self.is_posting(b),
        ensures
            self.is_posting(t),
            word::rank(self.dist.eval_spec(self.raw_at(id as int), self.centroid(t)))
                <= word::rank(self.dist.eval_spec(self.raw_at(id as int), self.centroid(b))),
    {
        let (v, hits, found) = choose|v: &[u32], hits: Seq<Hit>, found: Seq<Candidate>| #[trigger]
            self.nearest_result(v, 1, hits, found) && v@ == self.raw_at(id as int) && (found.len()
                > 0 ==> t == found[0].id);
        self.nearest_postings_are_found(v, 1, hits, found, b);
        if candidate::holds_id(found, b as u32) {
            let i = choose|i: int| 0 <= i < found.len() && (#[trigger] found[i]).id == b as u32;
            assert(i == 0);
        }
        assert(found[0].dist == self.away(v@, found[0].id as int));
    }

    /// In an opened index every block without a posting is free, and may be taken at once.
    pub proof fn free_blocks_may_be_taken_at_once(
        &self,
        m: Meta,
        graph: IncrementalDiskANN<'a, D>,
        blocks: Seq<u8>,
        raw: Seq<u32>,
        dist: D,
        b: int,
    )
        requires
            self.is_opened(m, graph, blocks, raw, dist),
            0 <= b < self.block_cid@.len() <= u32::MAX,
        ensures
            !self.is_posting(b) ==> exists|i: int|
                0 <= i < self.free@.len() && (#[trigger] self.free@[i]).0 == b && self.free@[i].1
                    < self.epoch,
            forall|i: int| 0 <= i < self.free@.len() ==> (#[trigger] self.free@[i]).1 < self.epoch,
    {
        lemma_free(m.block_cid@, m.block_cid@.len() as int, b);
    }

    /// When entries move, those of deleted vectors leave the posting, and no entry goes
    /// anywhere that no move sends it to.
    pub proof fn moves_leave_no_dead(&self, before: &Self, from: int, moves: Seq<Move>, c: int, id: u64)
        requires
            self.has_moved(before, from, moves),
            self.holds_id(c, id),
        ensures
            before.holds_id(c, id) || spfresh::sends(moves, id, c as u32) || c == from,
            !spfresh::is_sent(moves, id) && c == from ==> !before.deleted@.contains(id),
            !spfresh::is_sent(moves, id) ==> before.holds_id(c, id),
    {
    }

    /// Once a snapshot is stored, its blocks are clean but for those written again since;
    /// and the vectors below its count, or below an earlier one that was higher, are stored.
    pub proof fn stored_blocks_are_clean(
        &self,
        before: &Self,
        blocks: Seq<(u32, u64)>,
        next_id: u64,
        b: u32,
    )
        requires
            self.is_synced(before, blocks, next_id),
        ensures
            self.synced_id >= next_id,
            self.synced_id >= before.synced_id,
            self.synced_id == next_id || self.synced_id == before.synced_id,
            before.dirty@.contains_key(b) && blocks.contains((b, before.dirty@[b]))
                ==> !self.dirty@.contains_key(b),
            before.dirty@.contains_key(b) && !blocks.contains((b, before.dirty@[b]))
                ==> self.dirty@.contains_key(b) && self.dirty@[b] == before.dirty@[b],
            !before.dirty@.contains_key(b) ==> !self.dirty@.contains_key(b),
    {
    }

    /// How many of the best by code are looked at: as many as are compared again, where
    /// there are codes, or as are asked for, whichever is more.
    pub proof fn enough_are_looked_at(&self, k: int)
        requires
            0 <= k,
        ensures
            self.shortlist(k) >= k,
            self.quantizer is Some ==> self.shortlist(k) >= self.cfg.rerank_size || k
                >= self.cfg.rerank_size,
            self.shortlist(k) == k || (self.quantizer is Some && self.shortlist(k)
                == self.cfg.rerank_size),
    {
    }

    proof fn lemma_block_alike(&self, b: int, upto: int, e: int, one: Score, other: Score) -> (m: int)
        requires
            0 <= e < upto <= self.posting(b).len(),
            !self.deleted@.contains(self.posting(b)[e].id),
        ensures
            0 <= m < self.scan_block(b, upto, one).len(),
            self.scan_block(b, upto, one).len() == self.scan_block(b, upto, other).len(),
            self.scan_block(b, upto, one)[m] == (Hit {
                dist: one(b, self.posting(b)[e]),
                id: self.posting(b)[e].id,
            }),
            self.scan_block(b, upto, other)[m] == (Hit {
                dist: other(b, self.posting(b)[e]),
                id: self.posting(b)[e].id,
            }),
        decreases upto,
    {
        self.lemma_block_len(b, upto - 1, one, other);
        if e == upto - 1 {
            self.scan_block(b, upto - 1, one).len() as int
        } else {
            self.lemma_block_alike(b, upto - 1, e, one, other)
        }
    }

    proof fn lemma_block_len(&self, b: int, upto: int, one: Score, other: Score)
        ensures
            self.scan_block(b, upto, one).len() == self.scan_block(b, upto, other).len(),
        decreases upto,
    {
        if upto > 0 {
            self.lemma_block_len(b, upto - 1, one, other);
        }
    }

    proof fn lemma_scan_len(&self, probes: Seq<Candidate>, upto: int, one: Score, other: Score)
        ensures
            self.scan(probes, upto, one).len() == self.scan(probes, upto, other).len(),
        decreases upto,
    {
        if upto > 0 {
            let b = probes[upto - 1].id as int;
            self.lemma_scan_len(probes, upto - 1, one, other);
            self.lemma_block_len(b, self.posting(b).len() as int, one, other);
        }
    }

    proof fn lemma_scan_alike(
        &self,
        probes: Seq<Candidate>,
        upto: int,
        p: int,
        e: int,
        one: Score,
        other: Score,
    ) -> (m: int)
        requires
            0 <= p < upto <= probes.len(),
            0 <= e < self.posting(probes[p].id as int).len(),
            !self.deleted@.contains(self.posting(probes[p].id as int)[e].id),
        ensures
            0 <= m < self.scan(probes, upto, one).len(),
            self.scan(probes, upto, one).len() == self.scan(probes, upto, other).len(),
            ({
                let b = probes[p].id as int;
                let x = self.posting(b)[e];
                &&& self.scan(probes, upto, one)[m] == (Hit { dist: one(b, x), id: x.id })
                &&& self.scan(probes, upto, other)[m] == (Hit { dist: other(b, x), id: x.id })
            }),
        decreases upto,
    {
        let b = probes[upto - 1].id as int;
        let n = self.posting(b).len() as int;
        self.lemma_scan_len(probes, upto - 1, one, other);
        self.lemma_block_len(b, n, one, other);
        if p == upto - 1 {
            let m = self.lemma_block_alike(b, n, e, one, other);
            self.scan(probes, upto - 1, one).len() + m
        } else {
            self.lemma_scan_alike(probes, upto - 1, p, e, one, other)
        }
    }

    proof fn lemma_block_squares(&self, b: int, upto: int, query: Seq<u32>)
        ensures
            forall|m: int|
                0 <= m < self.scan_block(b, upto, self.by_square(query)).len() ==> (
                #[trigger] self.scan_block(b, upto, self.by_square(query))[m]).dist
                    == self.dist.square_l2_spec(
                    query,
                    self.raw_at(self.scan_block(b, upto, self.by_square(query))[m].id as int),
                ),
        decreases upto,
    {
        if upto > 0 {
            self.lemma_block_squares(b, upto - 1, query);
            let score = self.by_square(query);
            let part = self.scan_block(b, upto - 1, score);
            let now = self.scan_block(b, upto, score);
            assert forall|m: int| 0 <= m < now.len() implies (#[trigger] now[m]).dist
                == self.dist.square_l2_spec(query, self.raw_at(now[m].id as int)) by {
                if m < part.len() {
                    assert(now[m] == part[m]);
                }
            }
        }
    }

    proof fn lemma_scan_squares(&self, probes: Seq<Candidate>, upto: int, query: Seq<u32>)
        requires
            upto <= probes.len(),
        ensures
            forall|m: int|
                0 <= m < self.scan(probes, upto, self.by_square(query)).len() ==> (
                #[trigger] self.scan(probes, upto, self.by_square(query))[m]).dist
                    == self.dist.square_l2_spec(
                    query,
                    self.raw_at(self.scan(probes, upto, self.by_square(query))[m].id as int),
                ),
        decreases upto,
    {
        if upto > 0 {
            let b = probes[upto - 1].id as int;
            self.lemma_scan_squares(probes, upto - 1, query);
            self.lemma_block_squares(b, self.posting(b).len() as int, query);
            let score = self.by_square(query);
            let before = self.scan(probes, upto - 1, score);
            let part = self.scan_block(b, self.posting(b).len() as int, score);
            let now = self.scan(probes, upto, score);
            assert forall|m: int| 0 <= m < now.len() implies (#[trigger] now[m]).dist
                == self.dist.square_l2_spec(query, self.raw_at(now[m].id as int)) by {
                if m < before.len() {
                    assert(now[m] == before[m]);
                } else {
                    assert(now[m] == part[m - before.len()]);
                }
            }
        }
    }

    /// A search by bounds of the postings it searches passes over a live entry only where
    /// the estimate less the error radius, taken about the posting's centroid, is not below
    /// infinity, or not below any of the `k` that are kept. What it does not pass over it
    /// returns, unless `k` others are no farther by their vectors.
    #[verifier::rlimit(60)]
    pub proof fn bounds_pass_over_the_far(
        &self,
        query: &[u32],
        k: int,
        probes: Seq<Candidate>,
        considered: Seq<Hit>,
        kept: Seq<Hit>,
        r: Seq<Hit>,
        p: int,
        e: int,
    )
        requires
            self.has_bits(),
            self.found_by_bound(query@, k, probes, considered, kept, r),
            0 <= p < self.within(probes).len(),
            0 <= e < self.posting(self.within(probes)[p].id as int).len(),
            !self.deleted@.contains(self.posting(self.within(probes)[p].id as int)[e].id),
            select::numeric(considered),
        ensures
            ({
                let b = self.within(probes)[p].id as int;
                let x = self.posting(b)[e];
                let q = self.quantizer->0->RaBitQ_0;
                let about = rabitq::query_about(
                    self.dist,
                    q.padded,
                    q.signs@,
                    query@,
                    self.centroid(b),
                );
                let bound = self.dist.difference_spec(
                    rabitq::estimate(self.dist, &about, x.code),
                    rabitq::error_radius(self.dist, q.padded, &about, x.code),
                );
                let far = self.dist.square_l2_spec(query@, self.raw_at(x.id as int));
                ||| candidate::holds_id(kept, x.id)
                ||| !word::less(bound, 0x7f80_0000)
                ||| kept.len() == k && forall|i: int|
                    0 <= i < kept.len() ==> word::order((#[trigger] kept[i]).dist) <= word::order(
                        bound,
                    )
                ||| kept.len() == k && forall|i: int|
                    0 <= i < kept.len() ==> word::order((#[trigger] kept[i]).dist) <= word::order(
                        far,
                    )
            }),
    {
        let near = self.within(probes);
        let n = near.len() as int;
        let one = self.by_square(query@);
        let other = self.by_bound(query@);
        let m = self.lemma_scan_alike(near, n, p, e, one, other);
        let b = near[p].id as int;
        let x = self.posting(b)[e];
        let all = self.scan(near, n, one);
        let bounds = self.scan(near, n, other);
        assert(all[m].id == x.id);
        if candidate::holds_id(considered, x.id) {
            let j = choose|j: int| 0 <= j < considered.len() && (#[trigger] considered[j]).id
                == x.id;
            assert(all.contains(considered[j]));
            self.lemma_scan_squares(near, n, query@);
            if !candidate::holds_id(kept, considered[j].id) {
                let y = choose|y: int| 0 <= y < all.len() && all[y] == considered[j];
                assert(all[y].dist == self.dist.square_l2_spec(
                    query@,
                    self.raw_at(all[y].id as int),
                ));
            }
        } else {
            assert(!candidate::holds_id(considered, all[m].id));
            assert(bounds[m].dist == other(b, x));
        }
    }
}

proof fn lemma_whole(entries: Seq<Entry>, deleted: Set<u64>, upto: int)
    requires
        0 <= upto <= entries.len(),
    ensures
        spfresh::without(entries, deleted, upto).len() <= upto,
        spfresh::without(entries, deleted, upto).len() == upto ==> spfresh::without(
            entries,
            deleted,
            upto,
        ) == entries.take(upto),
    decreases upto,
{
    if upto > 0 {
        lemma_whole(entries, deleted, upto - 1);
        assert(entries.take(upto) =~= entries.take(upto - 1).push(entries[upto - 1]));
    } else {
        assert(entries.take(0) =~= Seq::empty());
    }
}

proof fn lemma_free(block_cid: Seq<u64>, upto: int, b: int)
    requires
        0 <= upto <= block_cid.len() <= u32::MAX,
    ensures
        forall|i: int|
            0 <= i < reopen::free_upto(block_cid, upto).len() ==> (#[trigger] reopen::free_upto(
                block_cid,
                upto,
            )[i]).1 == 0,
        0 <= b < upto && block_cid[b] == 0xffff_ffff_ffff_ffff ==> exists|i: int|
            0 <= i < reopen::free_upto(block_cid, upto).len() && (#[trigger] reopen::free_upto(
                block_cid,
                upto,
            )[i]).0 == b,
    decreases upto,
{
    if upto > 0 {
        lemma_free(block_cid, upto - 1, b);
        let part = reopen::free_upto(block_cid, upto - 1);
        let all = reopen::free_upto(block_cid, upto);
        assert forall|i: int| 0 <= i < all.len() implies (#[trigger] all[i]).1 == 0 by {
            if i < part.len() {
                assert(all[i] == part[i]);
            }
        }
        if 0 <= b < upto && block_cid[b] == 0xffff_ffff_ffff_ffff {
            if b < upto - 1 {
                let i = choose|i: int| 0 <= i < part.len() && (#[trigger] part[i]).0 == b;
                assert(all[i].0 == b);
            } else {
                assert(all[part.len() as int].0 == b);
            }
        }
    }
}

proof fn lemma_first_old(free: Seq<(u32, u64)>, epoch: u64, i: int)
    requires
        0 <= i <= free.len(),
    ensures
        i <= history::first_old(free, epoch, i) <= free.len(),
        history::first_old(free, epoch, i) < free.len() ==> free[history::first_old(
            free,
            epoch,
            i,
        )].1 < epoch,
        forall|j: int|
            i <= j < history::first_old(free, epoch, i) ==> (#[trigger] free[j]).1 >= epoch,
    decreases free.len() - i,
{
    if i < free.len() && free[i].1 >= epoch {
        lemma_first_old(free, epoch, i + 1);
    }
}

} // verus!
