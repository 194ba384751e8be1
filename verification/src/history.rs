//! How postings change, step by step, and which blocks an index marks as written.
use crate::candidate::Candidate;
use crate::candidate::Hit;
use crate::error::DiskAnnError;
use crate::error::Fault;
use crate::incremental::IncrementalDiskANN;
use crate::metric::Distance;
use crate::postings;
use crate::postings::Entry;
use crate::spfresh;
use crate::spfresh::Move;
use crate::spfresh::SPFresh;
use crate::spfresh::CHUNK;
use vstd::prelude::*;

verus! {

/// Where, from position `i` on, the first block stands that was freed before an epoch.
pub open spec fn first_old(free: Seq<(u32, u64)>, epoch: u64, i: int) -> int
    decreases free.len() - i,
{
    if i >= free.len() || free[i].1 < epoch {
        i
    } else {
        first_old(free, epoch, i + 1)
    }
}

/// A centroid was added to the graph, under this id.
pub open spec fn took_centroid<'a, D: Distance>(
    pre: &IncrementalDiskANN<'a, D>,
    centroid: Seq<u32>,
    cid: u64,
    post: &IncrementalDiskANN<'a, D>,
) -> bool {
    exists|one: Seq<Vec<u32>>, r: Result<Vec<u64>, DiskAnnError>| #[trigger]
        IncrementalDiskANN::added(pre, one, post, r) && one.len() == 1 && one[0]@ == centroid
            && r is Ok && r->Ok_0@[0] == cid
}

impl<'a, D: Distance> SPFresh<'a, D> {
    /// Block `b` was found for a new posting: the first that was freed before this epoch,
    /// or else a new one.
    pub open spec fn took_block(&self, before: &Self, b: int) -> bool {
        let free = before.free@;
        let i = first_old(free, before.epoch, 0);
        if i < free.len() {
            &&& b == free[i].0
            &&& self.free@ == free.update(i, free.last()).drop_last()
            &&& self.block_cid@.len() == before.block_cid@.len()
        } else {
            &&& b == before.block_cid@.len()
            &&& self.free@ == free
            &&& self.block_cid@.len() == before.block_cid@.len() + 1
        }
    }

    /// Block `b` was not written since `before`: its mark is the same, and so are its
    /// bytes. A block that was not there is blank.
    pub open spec fn stands(&self, before: &Self, b: u32) -> bool {
        &&& self.dirty@.contains_key(b) == before.dirty@.contains_key(b)
        &&& self.dirty@.contains_key(b) ==> self.dirty@[b] == before.dirty@[b]
        &&& b < self.block_cid@.len() ==> self.postings.block(b as int) == if b
            < before.block_cid@.len() {
            before.postings.block(b as int)
        } else {
            postings::blank_block(self.postings.size())
        }
    }

    /// Block `b` is marked as written after `before`.
    pub open spec fn is_marked(&self, before: &Self, b: u32) -> bool {
        &&& self.dirty@.contains_key(b)
        &&& self.write_seq < u64::MAX ==> before.write_seq < self.dirty@[b] <= self.write_seq
    }

    /// Every block that was written since `before` is marked.
    #[verifier::opaque]
    pub open spec fn marks_writes(&self, before: &Self) -> bool {
        &&& before.block_cid@.len() <= self.block_cid@.len()
        &&& before.write_seq <= self.write_seq
        &&& self.postings.size() == before.postings.size()
        &&& forall|b: u32| #[trigger] self.stands(before, b) || self.is_marked(before, b)
    }

    pub(crate) proof fn lemma_unwritten(&self, before: &Self)
        requires
            self.dirty == before.dirty,
            self.write_seq == before.write_seq,
            self.postings == before.postings,
            self.block_cid@.len() == before.block_cid@.len(),
        ensures
            self.marks_writes(before),
    {
        reveal(SPFresh::marks_writes);
    }

    pub(crate) proof fn lemma_one_written(&self, before: &Self, b: u32)
        requires
            self.write_seq == if before.write_seq < u64::MAX {
                (before.write_seq + 1) as u64
            } else {
                u64::MAX
            },
            self.dirty@ == before.dirty@.insert(b, self.write_seq),
            self.block_cid@.len() == before.block_cid@.len() == before.postings.count,
            self.postings.same_but(&before.postings, b as int),
        ensures
            self.marks_writes(before),
    {
        reveal(SPFresh::marks_writes);
        assert forall|c: u32| #[trigger] self.stands(before, c) || self.is_marked(before, c) by {
            if c != b && c < self.block_cid@.len() {
                assert(self.postings.block(c as int) == before.postings.block(c as int));
            }
        }
    }

    pub(crate) proof fn lemma_one_more_block(&self, before: &Self)
        requires
            self.dirty == before.dirty,
            self.write_seq == before.write_seq,
            self.postings.size() == before.postings.size(),
            self.block_cid@.len() == before.block_cid@.len() + 1,
            self.postings.block(before.block_cid@.len() as int) == postings::blank_block(
                self.postings.size(),
            ),
            forall|b: int|
                0 <= b < before.block_cid@.len() ==> #[trigger] self.postings.block(b)
                    == before.postings.block(b),
        ensures
            self.marks_writes(before),
    {
        reveal(SPFresh::marks_writes);
    }

    pub(crate) proof fn lemma_written(&self, mid: &Self, before: &Self)
        requires
            self.marks_writes(mid),
            mid.marks_writes(before),
        ensures
            self.marks_writes(before),
    {
        reveal(SPFresh::marks_writes);
        assert forall|b: u32| #[trigger] self.stands(before, b) || self.is_marked(before, b) by {
            assert(self.stands(mid, b) || self.is_marked(mid, b));
            assert(mid.stands(before, b) || mid.is_marked(before, b));
        }
    }
}

impl<'a, D: Distance> SPFresh<'a, D> {
    /// A vector got an entry at the end of posting `t`.
    pub open spec fn gained(&self, before: &Self, t: int, id: u64) -> bool {
        &&& before.is_posting(t)
        &&& self.same_but(before, t)
        &&& self.posting(t) == before.posting(t).push(
            Entry { id, code: before.code_for(before.raw_at(id as int), before.centroid(t)) },
        )
    }

    /// Posting `b` lost the entries of deleted vectors.
    pub open spec fn lost_dead(&self, before: &Self, b: int) -> bool {
        &&& before.is_posting(b)
        &&& self.same_but(before, b)
        &&& self.posting(b) == before.live_in(b)
    }

    /// The moves that posting `from` asks for when its entries may go to `cands`.
    pub open spec fn moves_from(&self, from: int, cands: Seq<u32>) -> Seq<Move> {
        self.moves_for(self.live_in(from), from, cands, self.live_in(from).len() as int)
    }

    /// Entries of posting `from` moved, and those of deleted vectors went. The other
    /// entries are where they were.
    pub open spec fn has_moved(&self, before: &Self, from: int, moves: Seq<Move>) -> bool {
        &&& self.same_routing(before)
        &&& forall|m: int| 0 <= m < moves.len() ==> self.arrived(from, #[trigger] moves[m])
        &&& forall|c: int, id: u64| #[trigger]
            self.holds_id(c, id) ==> if spfresh::is_sent(moves, id) {
                c == from || spfresh::sends(moves, id, c as u32)
            } else {
                before.holds_id(c, id) && (c == from ==> !before.deleted@.contains(id))
            }
        &&& forall|c: int, id: u64| #[trigger]
            before.holds_id(c, id) && !spfresh::is_sent(moves, id) && !(c == from
                && before.deleted@.contains(id)) ==> self.holds_id(c, id)
    }

    /// The entries of posting `from` that are nearer to one of `cands` went there.
    pub open spec fn relocated(&self, before: &Self, from: int, cands: Seq<u32>) -> bool {
        let moves = before.moves_from(from, cands);
        &&& before.is_posting(from)
        &&& if moves.len() == 0 {
            *self == *before
        } else {
            self.has_moved(before, from, moves)
        }
    }

    /// The same, unless `q` is to be skipped or is no posting.
    pub open spec fn reassigned_one(
        &self,
        before: &Self,
        q: u32,
        skip: Seq<u32>,
        cands: Seq<u32>,
    ) -> bool {
        if skip.contains(q) || !before.is_posting(q as int) {
            *self == *before
        } else {
            self.relocated(before, q as int, cands)
        }
    }

    /// The same for each of the first `upto` of a list, one after
    /// the other.
    pub open spec fn reassigned(
        &self,
        before: &Self,
        list: Seq<u32>,
        skip: Seq<u32>,
        cands: Seq<u32>,
        upto: int,
    ) -> bool
        decreases upto,
    {
        if upto <= 0 {
            *self == *before
        } else {
            let q = list[upto - 1];
            exists|mid: Self|
                mid.reassigned(before, list, skip, cands, upto - 1)
                    && #[trigger] self.reassigned_one(&mid, q, skip, cands)
        }
    }

    /// The postings around the centroid of posting `p`.
    pub open spec fn is_around(&self, p: int, r: Seq<u32>) -> bool {
        exists|v: &[u32], hits: Seq<Hit>, found: Seq<Candidate>| #[trigger]
            self.nearest_result(v, self.cfg.reassign_neighbors + 2, hits, found) && v@
                == self.centroid(p) && r == crate::index::ids(found)
    }

    /// The postings around either of two, in rising order, each once.
    pub open spec fn is_around_both(&self, low: int, high: int, r: Seq<u32>) -> bool {
        &&& exists|x: Seq<u32>, y: Seq<u32>|
            #![trigger self.is_around(low, x), self.is_around(high, y)]
            self.is_around(low, x) && self.is_around(high, y) && forall|b: u32| #[trigger]
                r.contains(b) <==> x.contains(b) || y.contains(b)
        &&& forall|i: int, j: int| 0 <= i < j < r.len() ==> #[trigger] r[i] < #[trigger] r[j]
    }

    /// Posting `b` was cut in two, and entries around the two new postings moved to where
    /// they are nearer. One with fewer than two live entries only lost the others.
    pub open spec fn was_split(&self, before: &Self, b: int) -> bool {
        &&& before.is_posting(b)
        &&& if before.live_in(b).len() < 2 {
            self.lost_dead(before, b)
        } else {
            exists|
                cut: Self,
                mid: Self,
                vs: Seq<Vec<u32>>,
                nb: Seq<u32>,
                around: Seq<u32>,
            | #[trigger] self.is_split(before, b, &cut, &mid, vs, nb, around)
        }
    }

    /// A split by way of `cut` and `mid`.
    pub open spec fn is_split(
        &self,
        before: &Self,
        b: int,
        cut: &Self,
        mid: &Self,
        vs: Seq<Vec<u32>>,
        nb: Seq<u32>,
        around: Seq<u32>,
    ) -> bool {
        &&& nb.len() == 2
        &&& cut.cut(before, b, vs, nb[0] as int, nb[1] as int)
        &&& cut.is_around_both(nb[0] as int, nb[1] as int, around)
        &&& mid.reassigned(cut, nb, Seq::empty(), around, 2)
        &&& self.reassigned(mid, around, nb, nb, around.len() as int)
    }

    /// A posting that was too large was split, or the entries of a posting moved to where
    /// they are nearer.
    pub open spec fn is_tidier(&self, before: &Self) -> bool {
        ||| exists|b: int| #[trigger]
            self.was_split(before, b) && before.posting(b).len() >= before.cfg.max_posting_size
        ||| exists|b: int, around: Seq<u32>| #[trigger]
            before.is_around(b, around) && before.moves_from(b, around).len() > 0
                && self.relocated(before, b, around)
    }

    /// So it was done `n` times.
    pub open spec fn tidied_in(&self, before: &Self, n: nat) -> bool
        decreases n,
    {
        if n == 0 {
            *self == *before
        } else {
            exists|mid: Self|
                mid.tidied_in(before, (n - 1) as nat) && #[trigger] self.is_tidier(&mid)
        }
    }

    /// So it was done some number of times.
    pub open spec fn tidied(&self, before: &Self) -> bool {
        exists|n: nat| #[trigger] self.tidied_in(before, n)
    }

    pub(crate) proof fn lemma_tidier(&self, mid: &Self, before: &Self, n: nat)
        requires
            mid.tidied_in(before, n),
            self.is_tidier(mid),
        ensures
            self.tidied_in(before, n + 1),
    {
        assert((n + 1 - 1) as nat == n);
    }

    /// Tidying came to a halt here: there is no room for two more postings, or it was done
    /// as often as can be counted.
    pub open spec fn ran_out(&self, before: &Self) -> bool {
        &&& self.tidied(before)
        &&& !self.has_room(2) || self.tidied_in(before, u64::MAX as nat)
    }

    /// A vector was put into posting `b`, which was split if that made it too large.
    pub open spec fn put_in(&self, before: &Self, b: int, id: u64) -> bool {
        exists|mid: Self| #[trigger]
            mid.gained(before, b, id) && if mid.posting(b).len() >= mid.cfg.max_posting_size {
                self.tidied(&mid)
            } else {
                *self == mid
            }
    }

    /// An empty posting about a centroid was added, and the centroid to the graph.
    pub open spec fn opened_posting(&self, before: &Self, b: int, centroid: Seq<u32>) -> bool {
        &&& self.same_store(before)
        &&& self.created@ == before.created@.push(b as u32)
        &&& self.has_grown(before, 1)
        &&& self.took_block(before, b)
        &&& took_centroid(&before.graph, centroid, self.block_cid@[b], &self.graph)
        &&& self.keeps_postings(before, set![b])
        &&& forall|c: int| #[trigger]
            before.is_posting(c) ==> self.block_cid@[c] == before.block_cid@[c]
        &&& self.is_posting(b)
        &&& self.centroid(b) == centroid
        &&& self.posting(b).len() == 0
    }

    /// A vector was put into the posting that is chosen for it; there being none, into a
    /// new one about it.
    pub open spec fn placed(&self, before: &Self, id: u64, target: Option<u32>) -> bool {
        exists|v: &[u32], hits: Seq<Hit>, found: Seq<Candidate>, r: Option<Candidate>| #[trigger]
            before.is_choice(v, target, hits, found, r) && v@ == before.raw_at(id as int)
                && match r {
                Some(c) => self.put_in(before, c.id as int, id),
                None => exists|mid: Self, b: int| #[trigger]
                    mid.opened_posting(before, b, v@) && self.put_in(&mid, b, id),
            }
    }

    /// The posting nearest to a vector, if any.
    pub open spec fn is_target(&self, id: u64, target: Option<u32>) -> bool {
        exists|v: &[u32], hits: Seq<Hit>, found: Seq<Candidate>| #[trigger]
            self.nearest_result(v, 1, hits, found) && v@ == self.raw_at(id as int) && target
                == if found.len() > 0 {
                Some(found[0].id)
            } else {
                None
            }
    }

    /// The vectors with the first `upto` ids from `first` on were put into postings, which
    /// were looked for before the first of them was.
    pub open spec fn placed_all(&self, start: &Self, first: u64, upto: int) -> bool
        decreases upto,
    {
        if upto <= 0 {
            *self == *start
        } else {
            let id = (first + (upto - 1)) as u64;
            exists|mid: Self, target: Option<u32>|
                mid.placed_all(start, first, upto - 1) && start.is_target(id, target)
                    && #[trigger] self.placed(&mid, id, target)
        }
    }

    /// A new epoch began.
    pub open spec fn has_begun(&self, before: &Self) -> bool {
        &&& self.same_vectors(before)
        &&& self.epoch == before.epoch + 1
        &&& self.graph == before.graph
        &&& self.postings == before.postings
        &&& self.block_cid == before.block_cid
        &&& self.block_centroid == before.block_centroid
        &&& self.cid_block == before.cid_block
        &&& self.free == before.free
        &&& self.created@.len() == 0
        &&& self.dirty == before.dirty
        &&& self.write_seq == before.write_seq
    }

    /// The graph was built anew.
    pub open spec fn is_rebuilt(&self, before: &Self) -> bool {
        self.same_entries(before) && self.is_compact()
    }

    /// A chunk of vectors was put into postings, and the graph was built anew if it had
    /// grown enough.
    pub open spec fn took_chunk(&self, before: &Self, first: u64, count: int) -> bool {
        exists|start: Self, end: Self|
            #![trigger start.has_begun(before), end.placed_all(&start, first, count)]
            start.has_begun(before) && end.placed_all(&start, first, count)
                && if end.graph.is_due() {
                self.is_rebuilt(&end)
            } else {
                *self == end
            }
    }

    /// After the first `done` of `n` vectors, the next chunk of them came, up to `upto`.
    pub open spec fn took_next(&self, before: &Self, first: u64, n: int, done: int, upto: int) -> bool {
        let count = if n - done < CHUNK {
            n - done
        } else {
            CHUNK as int
        };
        upto == done + count && self.took_chunk(before, (first + done) as u64, count)
    }

    /// The first `upto` of `n` vectors with ids from `first` on were put into postings,
    /// chunk by chunk.
    pub open spec fn took_chunks(&self, before: &Self, first: u64, n: int, upto: int) -> bool
        decreases upto,
    {
        if upto <= 0 {
            *self == *before
        } else {
            exists|mid: Self, done: int|
                0 <= done < upto && mid.took_chunks(before, first, n, done)
                    && #[trigger] self.took_next(&mid, first, n, done, upto)
        }
    }

    /// What is not about vectors is the same.
    pub open spec fn same_postings(&self, other: &Self) -> bool {
        &&& self.graph == other.graph
        &&& self.block_cid == other.block_cid
        &&& self.block_centroid == other.block_centroid
        &&& self.cid_block == other.cid_block
        &&& self.free == other.free
        &&& self.created == other.created
        &&& self.epoch == other.epoch
        &&& self.dirty == other.dirty
        &&& self.write_seq == other.write_seq
        &&& self.postings == other.postings
    }

    /// The graph was built anew if centroids came or went since it was built.
    pub open spec fn is_settled(&self, before: &Self) -> bool {
        if before.graph.delta.vectors@.len() > 0 || before.graph.tombstones@.len() > 0 {
            self.is_rebuilt(before)
        } else {
            *self == *before
        }
    }

    /// Vectors were stored, and then put into postings.
    pub open spec fn has_inserted(&self, before: &Self, vectors: Seq<Vec<u32>>) -> bool {
        exists|stored: Self, end: Self|
            #![trigger stored.same_postings(before), self.is_settled(&end)]
            stored.same_postings(before) && stored.is_longer_by(before, vectors)
                && end.took_chunks(
                &stored,
                before.next_id,
                vectors.len() as int,
                vectors.len() as int,
            ) && self.is_settled(&end)
    }

    /// Posting `b` is no more, nor is its centroid among those that the graph finds.
    pub open spec fn gave_up(&self, before: &Self, b: int) -> bool {
        &&& self.same_store(before)
        &&& self.created == before.created
        &&& self.free@ == before.free@.push((b as u32, before.epoch))
        &&& self.has_grown(before, 0)
        &&& self.block_cid@.len() == before.block_cid@.len()
        &&& IncrementalDiskANN::deleted(&before.graph, seq![before.block_cid@[b]], &self.graph)
        &&& forall|c: int| #[trigger] self.is_posting(c) <==> before.is_posting(c) && c != b
        &&& forall|c: int| #[trigger]
            before.is_posting(c) && c != b ==> self.centroid(c) == before.centroid(c)
                && self.posting(c) == before.posting(c) && self.block_cid@[c]
                == before.block_cid@[c]
    }

    /// A posting nearest to a vector; none being found, any.
    pub open spec fn is_home(&self, id: u64, t: int) -> bool {
        &&& self.is_posting(t)
        &&& exists|v: &[u32], hits: Seq<Hit>, found: Seq<Candidate>| #[trigger]
            self.nearest_result(v, 1, hits, found) && v@ == self.raw_at(id as int) && (found.len()
                > 0 ==> t == found[0].id)
    }

    /// The vectors of the first `upto` entries were put into the postings nearest to them.
    pub open spec fn dealt_out(&self, before: &Self, entries: Seq<Entry>, upto: int) -> bool
        decreases upto,
    {
        if upto <= 0 {
            *self == *before
        } else {
            let id = entries[upto - 1].id;
            exists|mid: Self, t: int|
                mid.dealt_out(before, entries, upto - 1) && mid.is_home(id, t)
                    && #[trigger] self.put_in(&mid, t, id)
        }
    }

    /// Block `b` was looked after: a posting with few live entries was given up, and these
    /// were put into others; another one lost the entries of deleted vectors.
    pub open spec fn tended(&self, before: &Self, b: int) -> bool {
        let live = before.live_in(b);
        if !before.is_posting(b) {
            *self == *before
        } else if live.len() < before.cfg.min_posting_size && before.cid_block@.len() > 1 {
            exists|mid: Self| #[trigger]
                mid.gave_up(before, b) && self.dealt_out(&mid, live, live.len() as int)
        } else if live.len() != before.posting(b).len() {
            self.lost_dead(before, b)
        } else {
            *self == *before
        }
    }

    /// So were the first `upto` blocks.
    pub open spec fn tended_all(&self, before: &Self, upto: int) -> bool
        decreases upto,
    {
        if upto <= 0 {
            *self == *before
        } else {
            exists|mid: Self|
                mid.tended_all(before, upto - 1) && #[trigger] self.tended(&mid, upto - 1)
        }
    }

    /// All blocks were looked after in a new epoch.
    pub open spec fn has_collected(&self, before: &Self) -> bool {
        exists|start: Self, end: Self|
            #![trigger start.has_begun(before), self.is_settled(&end)]
            start.has_begun(before) && end.tended_all(&start, start.block_cid@.len() as int)
                && self.is_settled(&end)
    }

    /// A vector was put into posting `b`, and tidying after that came to a halt.
    pub open spec fn ran_out_putting(&self, before: &Self, b: int, id: u64) -> bool {
        exists|mid: Self| #[trigger]
            mid.gained(before, b, id) && mid.posting(b).len() >= mid.cfg.max_posting_size
                && self.ran_out(&mid)
    }

    /// The vector with the id `first + k` could not be placed for want of room.
    pub open spec fn ran_out_placing(
        &self,
        before: &Self,
        first: u64,
        k: int,
        target: Option<u32>,
    ) -> bool {
        let id = (first + k) as u64;
        exists|v: &[u32], hits: Seq<Hit>, found: Seq<Candidate>, r: Option<Candidate>| #[trigger]
            before.is_choice(v, target, hits, found, r) && v@ == before.raw_at(id as int)
                && match r {
                Some(c) => self.ran_out_putting(before, c.id as int, id),
                None => {
                    ||| *self == *before && !self.has_room(2)
                    ||| exists|mid: Self, b: int| #[trigger]
                        mid.opened_posting(before, b, v@) && self.ran_out_putting(&mid, b, id)
                },
            }
    }

    /// Of `count` vectors with ids from `first` on, one could not be placed for want of
    /// room; those before it were.
    pub open spec fn ran_out_among(&self, start: &Self, first: u64, count: int) -> bool {
        exists|mid: Self, k: int, target: Option<u32>|
            0 <= k < count && mid.placed_all(start, first, k) && start.is_target(
                (first + k) as u64,
                target,
            ) && #[trigger] self.ran_out_placing(&mid, first, k, target)
    }

    /// After the first `done` of `n` vectors, inserting failed: no epoch was left, a vector
    /// of the next chunk could not be placed, or the graph could not be built anew.
    pub open spec fn stopped_after(
        &self,
        before: &Self,
        first: u64,
        n: int,
        done: int,
        e: DiskAnnError,
    ) -> bool {
        let count = if n - done < CHUNK {
            n - done
        } else {
            CHUNK as int
        };
        let from = (first + done) as u64;
        let full = e == DiskAnnError::IndexError(Fault::OutOfRoom);
        if done < n {
            ||| full && *self == *before && self.epoch == u64::MAX
            ||| full && exists|start: Self| #[trigger]
                start.has_begun(before) && self.ran_out_among(&start, from, count)
            ||| self.graph.is_due() && self.cannot_rebuild(e) && exists|start: Self| #[trigger]
                start.has_begun(before) && self.placed_all(&start, from, count)
        } else {
            &&& *self == *before
            &&& self.graph.delta.vectors@.len() > 0 || self.graph.tombstones@.len() > 0
            &&& self.cannot_rebuild(e)
        }
    }

    /// Vectors were stored, and putting them into postings failed on the way.
    pub open spec fn stopped_inserting(
        &self,
        before: &Self,
        vectors: Seq<Vec<u32>>,
        e: DiskAnnError,
    ) -> bool {
        exists|stored: Self, mid: Self, done: int|
            #![trigger stored.same_postings(before), self.stopped_after(&mid, before.next_id, vectors.len() as int, done, e)]
            0 <= done <= vectors.len() && stored.same_postings(before) && stored.is_longer_by(
                before,
                vectors,
            ) && mid.took_chunks(&stored, before.next_id, vectors.len() as int, done)
                && self.stopped_after(&mid, before.next_id, vectors.len() as int, done, e)
    }

    /// Entry `k` found a posting, and tidying after that came to a halt.
    pub open spec fn ran_out_dealing(
        &self,
        before: &Self,
        entries: Seq<Entry>,
        k: int,
        t: int,
    ) -> bool {
        &&& 0 <= k < entries.len()
        &&& before.is_home(entries[k].id, t)
        &&& self.ran_out_putting(before, t, entries[k].id)
    }

    /// Block `b` was given up, and for want of room not all of its entries were put into
    /// others.
    pub open spec fn ran_out_tending(&self, before: &Self, b: int) -> bool {
        let live = before.live_in(b);
        &&& before.is_posting(b)
        &&& live.len() < before.cfg.min_posting_size
        &&& before.cid_block@.len() > 1
        &&& exists|st: Self| #[trigger]
            st.gave_up(before, b) && self.ran_out_among_entries(&st, live)
    }

    /// Of some entries, one could not be put into a posting for want of room; those before
    /// it were.
    pub open spec fn ran_out_among_entries(&self, before: &Self, entries: Seq<Entry>) -> bool {
        exists|mid: Self, k: int, t: int|
            mid.dealt_out(before, entries, k) && #[trigger] self.ran_out_dealing(&mid, entries, k, t)
    }

    /// Looking after blocks failed: no epoch was left, a block could not be looked after
    /// for want of room, or the graph could not be built anew.
    pub open spec fn stopped_collecting(&self, before: &Self, e: DiskAnnError) -> bool {
        let full = e == DiskAnnError::IndexError(Fault::OutOfRoom);
        ||| full && *self == *before && self.epoch == u64::MAX
        ||| full && exists|start: Self, mid: Self, b: int|
            #![trigger start.has_begun(before), self.ran_out_tending(&mid, b)]
            0 <= b < start.block_cid@.len() && start.has_begun(before) && mid.tended_all(&start, b)
                && self.ran_out_tending(&mid, b)
        ||| (self.graph.delta.vectors@.len() > 0 || self.graph.tombstones@.len() > 0)
            && self.cannot_rebuild(e) && exists|start: Self| #[trigger]
            start.has_begun(before) && self.tended_all(&start, start.block_cid@.len() as int)
    }

    pub(crate) proof fn lemma_reassigned(
        &self,
        mid: &Self,
        before: &Self,
        list: Seq<u32>,
        skip: Seq<u32>,
        cands: Seq<u32>,
        upto: int,
    )
        requires
            0 < upto,
            mid.reassigned(before, list, skip, cands, upto - 1),
            self.reassigned_one(mid, list[upto - 1], skip, cands),
        ensures
            self.reassigned(before, list, skip, cands, upto),
    {
    }

    pub(crate) proof fn lemma_placed(
        &self,
        mid: &Self,
        start: &Self,
        first: u64,
        target: Option<u32>,
        upto: int,
    )
        requires
            0 < upto,
            mid.placed_all(start, first, upto - 1),
            start.is_target((first + (upto - 1)) as u64, target),
            self.placed(mid, (first + (upto - 1)) as u64, target),
        ensures
            self.placed_all(start, first, upto),
    {
    }

    pub(crate) proof fn lemma_dealt_out(
        &self,
        mid: &Self,
        before: &Self,
        entries: Seq<Entry>,
        t: int,
        upto: int,
    )
        requires
            0 < upto,
            mid.dealt_out(before, entries, upto - 1),
            mid.is_home(entries[upto - 1].id, t),
            self.put_in(mid, t, entries[upto - 1].id),
        ensures
            self.dealt_out(before, entries, upto),
    {
    }

    pub(crate) proof fn lemma_tended(&self, mid: &Self, before: &Self, upto: int)
        requires
            0 < upto,
            mid.tended_all(before, upto - 1),
            self.tended(mid, upto - 1),
        ensures
            self.tended_all(before, upto),
    {
    }
}

} // verus!
