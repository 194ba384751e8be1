//! An index of postings: vectors near one centroid stand together, and centroids are
//! found through a graph.
use crate::beam::Trace;
use crate::bisect;
use crate::bytes;
use crate::candidate;
use crate::candidate::Candidate;
use crate::candidate::Hit;
use crate::candidate::take_lowest;
use crate::error::DiskAnnError;
use crate::error::Fault;
use crate::history;
use crate::incremental;
use crate::incremental::IncrementalConfig;
use crate::incremental::IncrementalDiskANN;
use crate::index;
use crate::index::DiskANN;
use crate::kmeans;
use crate::metric::Distance;
use crate::postings::Blocks;
use crate::postings::Entry;
use crate::quantizer::Prepared;
use crate::quantizer::QuantizerState;
use crate::word;
use std::collections::HashMap;
use std::collections::HashSet;
use vstd::prelude::*;

verus! {

/// The centroid of no posting.
pub const FREE: u64 = 0xffff_ffff_ffff_ffff;

/// Up to this many postings, the nearest are found by comparing with all centroids.
pub const BRUTE_FORCE_CENTROIDS: usize = 4096;

/// Vectors that are inserted between two checks of the graph.
pub const CHUNK: usize = 4096;

/// Vectors in one object of a snapshot.
pub const RAW_CHUNK: usize = 4096;

/// How postings are kept and searched.
#[derive(Clone, Copy, Debug)]
pub struct SPFreshConfig {
    /// A posting is split when it reaches this many entries.
    pub max_posting_size: usize,
    /// `gc` merges postings with fewer live entries than this.
    pub min_posting_size: usize,
    /// Postings whose centroid is farther than this times the nearest are not searched.
    pub probe_ratio: u32,
    /// How many of the best by code are compared again by their vectors; 0 for none.
    pub rerank_size: usize,
    /// Postings around a split one whose entries may move.
    pub reassign_neighbors: usize,
    /// Beam of searches among the centroids.
    pub centroid_beam: usize,
}

impl Default for SPFreshConfig {
    fn default() -> (r: Self)
        ensures
            r.max_posting_size == 128,
            r.min_posting_size == 16,
            r.probe_ratio == word::INFINITY,
            r.rerank_size == 0,
            r.reassign_neighbors == 16,
            r.centroid_beam == 64,
    {
        SPFreshConfig {
            max_posting_size: 128,
            min_posting_size: 16,
            probe_ratio: word::INFINITY,
            rerank_size: 0,
            reassign_neighbors: 16,
            centroid_beam: 64,
        }
    }
}

/// Vectors in postings. Each posting has a block of entries and a centroid; the graph
/// holds the centroids.
pub struct SPFresh<'a, D: Distance> {
    pub dim: usize,
    pub cfg: SPFreshConfig,
    pub dist: D,
    pub quantizer: Option<QuantizerState>,
    pub graph: IncrementalDiskANN<'a, D>,
    /// The id of each block's centroid in the graph, or `FREE`.
    pub block_cid: Vec<u64>,
    pub block_centroid: Vec<Vec<u32>>,
    /// The block of each centroid.
    pub cid_block: HashMap<u64, u32>,
    /// Blocks without a posting, and when they were freed.
    pub free: Vec<(u32, u64)>,
    /// Blocks that got a posting since the last chunk began.
    pub created: Vec<u32>,
    pub epoch: u64,
    /// Blocks that were written since the last snapshot, and when.
    pub dirty: HashMap<u32, u64>,
    pub write_seq: u64,
    /// Vectors below this id are in the last snapshot.
    pub synced_id: u64,
    pub postings: Blocks,
    /// All vectors by id, one after the other.
    pub raw: Vec<u32>,
    pub next_id: u64,
    pub deleted: HashSet<u64>,
    /// How many vectors were not deleted.
    pub live: usize,
}

/// Bytes of a code.
pub open spec fn code_bytes(q: &Option<QuantizerState>, dim: int) -> int {
    match q {
        Some(q) => q.code_len(),
        None => 4 * dim,
    }
}

/// The configuration can be worked with.
pub open spec fn is_sound(cfg: &SPFreshConfig) -> bool {
    &&& 2 <= cfg.max_posting_size
    &&& 2 * cfg.max_posting_size < u32::MAX
    &&& 16 * cfg.centroid_beam <= usize::MAX
    &&& 16 * (cfg.reassign_neighbors + 2) <= usize::MAX
}

impl<'a, D: Distance> SPFresh<'a, D> {
    /// Whether a block holds a posting.
    pub open spec fn is_posting(&self, b: int) -> bool {
        0 <= b < self.block_cid@.len() && self.block_cid@[b] != FREE
    }

    /// The entries of a block.
    pub open spec fn posting(&self, b: int) -> Seq<Entry> {
        self.postings.posting(b)
    }

    /// The vector with an id.
    pub open spec fn raw_at(&self, id: int) -> Seq<u32> {
        self.raw@.subrange(id * self.dim, id * self.dim + self.dim)
    }

    /// The centroid of a block.
    pub open spec fn centroid(&self, b: int) -> Seq<u32> {
        self.block_centroid@[b]@
    }

    /// The code of a vector in a posting about a centroid.
    pub open spec fn code_for(&self, v: Seq<u32>, centroid: Seq<u32>) -> Seq<u8> {
        match self.quantizer {
            None => bytes::word_bytes(v),
            Some(QuantizerState::RaBitQ(q)) => q.code_of(self.dist, v, centroid),
            Some(q) => q.code_of(self.dist, v),
        }
    }

    /// Blocks, centroids and codes fit together.
    pub open spec fn shape(&self) -> bool {
        &&& is_sound(&self.cfg)
        &&& self.quantizer matches Some(q) ==> q.wf() && q.dim_of() == self.dim
        &&& self.postings.wf()
        &&& self.postings.capacity == 2 * self.cfg.max_posting_size
        &&& self.postings.code_size == code_bytes(&self.quantizer, self.dim as int)
        &&& self.postings.count == self.block_cid@.len()
        &&& self.block_centroid@.len() == self.block_cid@.len()
        &&& self.block_cid@.len() < u32::MAX
        &&& forall|b: int| #[trigger] self.is_posting(b) ==> self.centroid(b).len() == self.dim
    }

    /// The id names a vector of the graph.
    pub open spec fn in_graph(&self, cid: u64) -> bool {
        exists|pos: int| 0 <= pos < self.graph.total() && #[trigger] self.graph.global(pos) == cid
    }

    /// The graph has the centroid of a block as a live vector.
    pub open spec fn graph_has(&self, b: int) -> bool {
        exists|pos: int|
            0 <= pos < self.graph.total() && #[trigger] self.graph.global(pos)
                == self.block_cid@[b] && self.graph.live_at(pos) && self.graph.vector_at(pos)
                == self.centroid(b)
    }

    /// The graph has the metric of the index, and its base carries its header.
    pub open spec fn is_grounded(&self) -> bool {
        self.graph.is_well_based() && self.graph.dist == self.dist
    }

    /// Postings and the live vectors of the graph are in one-to-one correspondence.
    pub open spec fn linked(&self) -> bool {
        &&& self.graph.valid()
        &&& self.graph.dim == self.dim
        &&& self.graph.is_plain()
        &&& self.graph.delta.tidy()
        &&& forall|b: int| #[trigger]
            self.is_posting(b) ==> self.cid_block@.contains_key(self.block_cid@[b])
                && self.cid_block@[self.block_cid@[b]] == b && self.graph_has(b)
        &&& forall|cid: u64| #[trigger]
            self.cid_block@.contains_key(cid) ==> self.is_posting(self.cid_block@[cid] as int)
                && self.block_cid@[self.cid_block@[cid] as int] == cid
        &&& forall|pos: int|
            0 <= pos < self.graph.total() && #[trigger] self.graph.live_at(pos)
                ==> self.cid_block@.contains_key(self.graph.global(pos))
        &&& forall|cid: u64| #[trigger]
            self.graph.tombstones@.contains(cid) ==> self.in_graph(cid)
    }

    /// The graph leads to the postings.
    pub open spec fn routed(&self) -> bool {
        self.is_grounded() && self.linked()
    }

    /// Free blocks are listed once each, and are empty.
    pub open spec fn freed(&self) -> bool {
        &&& forall|i: int|
            0 <= i < self.free@.len() ==> (#[trigger] self.free@[i]).0 < self.block_cid@.len()
                && !self.is_posting(self.free@[i].0 as int)
        &&& forall|i: int, j: int|
            0 <= i < j < self.free@.len() ==> (#[trigger] self.free@[i]).0 != (
            #[trigger] self.free@[j]).0
        &&& forall|i: int|
            0 <= i < self.created@.len() ==> (#[trigger] self.created@[i]) < self.block_cid@.len()
    }

    /// There is a vector for each id that was given out, and deleted ids are among them.
    pub open spec fn stored(&self) -> bool {
        &&& self.raw@.len() == self.next_id * self.dim
        &&& self.raw@.len() <= usize::MAX
        &&& self.next_id <= usize::MAX
        &&& forall|id: u64| #[trigger] self.deleted@.contains(id) ==> id < self.next_id
        &&& self.deleted@.finite()
        &&& self.live == self.next_id - self.deleted@.len()
    }

    /// Every entry names a vector, and has its code.
    pub open spec fn coded(&self) -> bool {
        forall|b: int, i: int|
            self.is_posting(b) && 0 <= i < self.posting(b).len() ==> {
                &&& (#[trigger] self.posting(b)[i]).id < self.next_id
                &&& self.posting(b)[i].code == self.code_for(
                    self.raw_at(self.posting(b)[i].id as int),
                    self.centroid(b),
                )
            }
    }

    /// No two entries are of one vector.
    pub open spec fn unique(&self) -> bool {
        forall|b: int, i: int, c: int, j: int|
            self.is_posting(b) && self.is_posting(c) && 0 <= i < self.posting(b).len() && 0 <= j
                < self.posting(c).len() && (#[trigger] self.posting(b)[i]).id == (
            #[trigger] self.posting(c)[j]).id ==> b == c && i == j
    }

    pub open spec fn wf(&self) -> bool {
        &&& self.shape()
        &&& self.routed()
        &&& self.freed()
        &&& self.stored()
        &&& self.coded()
        &&& self.unique()
    }

    /// The parts of the index agree. An index of which that is true and whose graph is
    /// grounded, as that of an opened index is, is well-formed.
    pub open spec fn is_consistent(&self) -> bool {
        &&& self.shape()
        &&& self.linked()
        &&& self.freed()
        &&& self.stored()
        &&& self.coded()
        &&& self.unique()
    }

    /// Whether a posting holds an entry of a vector.
    pub open spec fn holds_id(&self, b: int, id: u64) -> bool {
        self.is_posting(b) && exists|i: int|
            0 <= i < self.posting(b).len() && (#[trigger] self.posting(b)[i]).id == id
    }

    /// Whether some posting holds an entry of a vector.
    pub open spec fn is_placed(&self, id: u64) -> bool {
        exists|b: int| #[trigger] self.holds_id(b, id)
    }

    /// What is not about postings is the same.
    pub open spec fn same_store(&self, other: &Self) -> bool {
        &&& self.dim == other.dim
        &&& self.cfg == other.cfg
        &&& self.dist == other.dist
        &&& self.quantizer == other.quantizer
        &&& self.epoch == other.epoch
        &&& self.synced_id == other.synced_id
        &&& self.raw == other.raw
        &&& self.next_id == other.next_id
        &&& self.deleted == other.deleted
        &&& self.live == other.live
    }

    /// What is not about entries is the same.
    pub open spec fn same_routing(&self, other: &Self) -> bool {
        &&& self.same_store(other)
        &&& self.graph == other.graph
        &&& self.block_cid == other.block_cid
        &&& self.block_centroid == other.block_centroid
        &&& self.cid_block == other.cid_block
        &&& self.free == other.free
        &&& self.created == other.created
    }

    /// Only the entries of block `b` differ.
    pub open spec fn same_but(&self, other: &Self, b: int) -> bool {
        &&& self.same_routing(other)
        &&& self.postings.same_but(&other.postings, b)
    }

    pub(crate) proof fn lemma_routed_same(&self, before: &Self)
        requires
            self.dim == before.dim,
            self.dist == before.dist,
            self.graph == before.graph,
            self.block_cid == before.block_cid,
            self.block_centroid == before.block_centroid,
            self.cid_block == before.cid_block,
            before.routed(),
        ensures
            self.routed(),
    {
        assert forall|b: int| #[trigger] self.is_posting(b) implies self.cid_block@.contains_key(
            self.block_cid@[b],
        ) && self.cid_block@[self.block_cid@[b]] == b && self.graph_has(b) by {
            assert(before.is_posting(b));
            assert(before.graph_has(b));
        }
        assert forall|cid: u64| #[trigger] self.cid_block@.contains_key(cid) implies self.is_posting(
            self.cid_block@[cid] as int,
        ) && self.block_cid@[self.cid_block@[cid] as int] == cid by {
            assert(before.cid_block@.contains_key(cid));
            assert(before.is_posting(before.cid_block@[cid] as int));
        }
        assert forall|cid: u64| #[trigger] self.graph.tombstones@.contains(cid) implies self.in_graph(
            cid,
        ) by {
            assert(before.in_graph(cid));
        }
    }

    proof fn lemma_routing_kept(&self, before: &Self)
        requires
            self.same_routing(before),
            before.routed(),
            before.freed(),
            before.stored(),
        ensures
            self.routed(),
            self.freed(),
            self.stored(),
    {
        self.lemma_routed_same(before);
        assert forall|i: int| 0 <= i < self.free@.len() implies (#[trigger] self.free@[i]).0
            < self.block_cid@.len() && !self.is_posting(self.free@[i].0 as int) by {
            assert(!before.is_posting(before.free@[i].0 as int));
        }
    }

    /// The vector with an id.
    pub(crate) fn raw(&self, id: u64) -> (r: &[u32])
        requires
            self.stored(),
            id < self.next_id,
        ensures
            r@ == self.raw_at(id as int),
            r@.len() == self.dim,
    {
        proof {
            crate::pq::lemma_flat_bounds(id as int, self.next_id as int, self.dim as int);
        }
        let start: usize = id as usize * self.dim;
        vstd::slice::slice_subrange(self.raw.as_slice(), start, start + self.dim)
    }

    pub(crate) fn is_live(&self, b: u32) -> (r: bool)
        requires
            b < self.block_cid@.len(),
        ensures
            r == self.is_posting(b as int),
    {
        self.block_cid[b as usize] != FREE
    }

    fn mark_dirty(&mut self, b: u32)
        ensures
            final(self).same_routing(&*old(self)),
            final(self).postings == old(self).postings,
            final(self).write_seq == if old(self).write_seq < u64::MAX {
                (old(self).write_seq + 1) as u64
            } else {
                u64::MAX
            },
            final(self).dirty@ == old(self).dirty@.insert(b, final(self).write_seq),
    {
        broadcast use vstd::std_specs::hash::group_hash_axioms;

        self.write_seq = self.write_seq.saturating_add(1);
        self.dirty.insert(b, self.write_seq);
    }

    /// The code of a vector in a posting.
    pub(crate) fn encode(&self, v: &[u32], b: u32) -> (r: Vec<u8>)
        requires
            self.shape(),
            self.is_posting(b as int),
            v@.len() == self.dim,
        ensures
            r@ == self.code_for(v@, self.centroid(b as int)),
            r@.len() == self.postings.code_size,
            self.quantizer matches Some(q) ==> q.is_code(r@),
    {
        match &self.quantizer {
            None => {
                let mut r: Vec<u8> = Vec::new();
                bytes::push_words(&mut r, v);
                proof {
                    bytes::lemma_word_bytes_len(v@);
                    assert(r@ =~= bytes::word_bytes(v@));
                }
                r
            },
            Some(QuantizerState::RaBitQ(q)) => q.encode_with(
                self.dist,
                v,
                self.block_centroid[b as usize].as_slice(),
            ),
            Some(q) => q.encode(self.dist, v),
        }
    }

    /// Adds an entry to a posting.
    fn push(&mut self, b: u32, id: u64, code: &[u8])
        requires
            old(self).wf(),
            old(self).is_posting(b as int),
            old(self).posting(b as int).len() < old(self).postings.capacity,
            id < old(self).next_id,
            !old(self).is_placed(id),
            code@ == old(self).code_for(
                old(self).raw_at(id as int),
                old(self).centroid(b as int),
            ),
            code@.len() == old(self).postings.code_size,
        ensures
            final(self).marks_writes(&*old(self)),
            final(self).wf(),
            final(self).same_but(&*old(self), b as int),
            final(self).posting(b as int) == old(self).posting(b as int).push(
                (Entry { id, code: code@ }),
            ),
            old(self).write_seq < u64::MAX ==> final(self).write_seq > old(self).write_seq,
            old(self).write_seq <= final(self).write_seq,
    {
        let ghost before = *self;
        self.mark_dirty(b);
        self.postings.append(b as usize, id, code);
        proof {
            let e = Entry { id, code: code@ };
            let now = self.posting(b as int);
            let was = before.posting(b as int);
            assert(now == was.push(e));
            assert forall|c: int| #[trigger] self.is_posting(c) && c != b implies self.posting(c)
                == before.posting(c) by {
                assert(self.postings.block(c) == before.postings.block(c));
            }
            self.lemma_one_written(&before, b);
            self.lemma_routing_kept(&before);
            assert forall|c: int| #[trigger] self.is_posting(c) implies self.centroid(c).len()
                == self.dim by {
                assert(before.is_posting(c));
            }
            assert forall|c: int, i: int|
                self.is_posting(c) && 0 <= i < self.posting(c).len() implies {
                &&& (#[trigger] self.posting(c)[i]).id < self.next_id
                &&& self.posting(c)[i].code == self.code_for(
                    self.raw_at(self.posting(c)[i].id as int),
                    self.centroid(c),
                )
            } by {
                if c != b || i < was.len() {
                    assert(self.posting(c)[i] == before.posting(c)[i]);
                }
            }
            assert forall|c: int, i: int, d: int, j: int|
                self.is_posting(c) && self.is_posting(d) && 0 <= i < self.posting(c).len() && 0 <= j
                    < self.posting(d).len() && (#[trigger] self.posting(c)[i]).id == (
                #[trigger] self.posting(d)[j]).id implies c == d && i == j by {
                let fresh_c = c == b && i == was.len();
                let fresh_d = d == b && j == was.len();
                if !fresh_c {
                    assert(self.posting(c)[i] == before.posting(c)[i]);
                    assert(before.holds_id(c, self.posting(c)[i].id));
                }
                if !fresh_d {
                    assert(self.posting(d)[j] == before.posting(d)[j]);
                    assert(before.holds_id(d, self.posting(d)[j].id));
                }
            }
        }
    }
}

/// An entry taken out of a posting.
pub struct Held {
    pub id: u64,
    pub code: Vec<u8>,
}

/// Entries as they stand in a posting.
pub open spec fn held(entries: Seq<Held>) -> Seq<Entry> {
    entries.map_values(|h: Held| Entry { id: h.id, code: h.code@ })
}

/// The first `upto` entries without those of deleted vectors.
pub open spec fn without(entries: Seq<Entry>, deleted: Set<u64>, upto: int) -> Seq<Entry>
    decreases upto,
{
    if upto <= 0 {
        Seq::empty()
    } else if deleted.contains(entries[upto - 1].id) {
        without(entries, deleted, upto - 1)
    } else {
        without(entries, deleted, upto - 1).push(entries[upto - 1])
    }
}

/// Where an entry that is left stood, and that order and number are kept.
proof fn lemma_without(entries: Seq<Entry>, deleted: Set<u64>, upto: int)
    requires
        0 <= upto <= entries.len(),
    ensures
        without(entries, deleted, upto).len() <= upto,
        forall|i: int|
            0 <= i < without(entries, deleted, upto).len() ==> !deleted.contains(
                (#[trigger] without(entries, deleted, upto)[i]).id,
            ) && entries.take(upto).contains(without(entries, deleted, upto)[i]),
        forall|i: int|
            0 <= i < upto && !deleted.contains((#[trigger] entries[i]).id) ==> without(
                entries,
                deleted,
                upto,
            ).contains(entries[i]),
        (forall|i: int, j: int|
            0 <= i < j < entries.len() ==> (#[trigger] entries[i]).id != (
            #[trigger] entries[j]).id) ==> forall|i: int, j: int|
            0 <= i < j < without(entries, deleted, upto).len() ==> (#[trigger] without(
                entries,
                deleted,
                upto,
            )[i]).id != (#[trigger] without(entries, deleted, upto)[j]).id,
    decreases upto,
{
    if upto > 0 {
        lemma_without(entries, deleted, upto - 1);
        let before = without(entries, deleted, upto - 1);
        let now = without(entries, deleted, upto);
        let first = entries.take(upto - 1);
        let e = entries[upto - 1];
        assert forall|i: int| 0 <= i < now.len() implies entries.take(upto).contains(
            #[trigger] now[i],
        ) by {
            if i < before.len() {
                assert(first.contains(before[i]));
                let j = choose|j: int| 0 <= j < first.len() && first[j] == before[i];
                assert(entries.take(upto)[j] == before[i]);
            } else {
                assert(entries.take(upto)[upto - 1] == e);
            }
        }
        assert forall|i: int| 0 <= i < upto && !deleted.contains((#[trigger] entries[i]).id) implies now.contains(
            entries[i],
        ) by {
            if i < upto - 1 {
                assert(before.contains(entries[i]));
                let j = choose|j: int| 0 <= j < before.len() && before[j] == entries[i];
                assert(now[j] == entries[i]);
            } else {
                assert(now[before.len() as int] == e);
            }
        }
        if forall|i: int, j: int|
            0 <= i < j < entries.len() ==> (#[trigger] entries[i]).id != (
            #[trigger] entries[j]).id {
            assert forall|i: int, j: int| 0 <= i < j < now.len() implies (#[trigger] now[i]).id != (
            #[trigger] now[j]).id by {
                if j == before.len() {
                    assert(first.contains(before[i]));
                    let k = choose|k: int| 0 <= k < first.len() && first[k] == before[i];
                    assert(entries[k].id != entries[upto - 1].id);
                } else {
                    assert(before[i].id != before[j].id);
                }
            }
        }
    }
}

impl<'a, D: Distance> SPFresh<'a, D> {
    /// The entries of a posting without those of deleted vectors.
    pub open spec fn live_in(&self, b: int) -> Seq<Entry> {
        without(self.posting(b), self.deleted@, self.posting(b).len() as int)
    }

    fn live_entries(&self, b: u32) -> (r: Vec<Held>)
        requires
            self.wf(),
            self.is_posting(b as int),
        ensures
            held(r@) == self.live_in(b as int),
            r@.len() <= self.posting(b as int).len(),
            forall|i: int|
                0 <= i < r@.len() ==> self.holds_id(b as int, (#[trigger] r@[i]).id)
                    && !self.deleted@.contains(r@[i].id) && r@[i].id < self.next_id,
            forall|i: int|
                0 <= i < r@.len() ==> (#[trigger] r@[i]).code@ == self.code_for(
                    self.raw_at(r@[i].id as int),
                    self.centroid(b as int),
                ) && r@[i].code@.len() == self.postings.code_size,
            forall|i: int, j: int|
                0 <= i < j < r@.len() ==> (#[trigger] r@[i]).id != (#[trigger] r@[j]).id,
            forall|id: u64| #[trigger]
                self.holds_id(b as int, id) && !self.deleted@.contains(id) ==> exists|i: int|
                    0 <= i < r@.len() && (#[trigger] r@[i]).id == id,
    {
        broadcast use vstd::std_specs::hash::group_hash_axioms;

        let n: usize = self.postings.len(b as usize);
        let ghost all = self.posting(b as int);
        let mut r: Vec<Held> = Vec::new();
        let mut i: usize = 0;
        assert(held(r@) =~= Seq::empty());
        while i < n
            invariant
                i <= n,
                self.wf(),
                self.is_posting(b as int),
                all == self.posting(b as int),
                n == all.len(),
                held(r@) == without(all, self.deleted@, i as int),
                forall|k: int|
                    0 <= k < r@.len() ==> (#[trigger] r@[k]).code@.len()
                        == self.postings.code_size,
            decreases n - i,
        {
            broadcast use vstd::std_specs::hash::group_hash_axioms;

            let id: u64 = self.postings.id(b as usize, i);
            if !self.deleted.contains(&id) {
                let part = self.postings.code(b as usize, i);
                let mut code: Vec<u8> = Vec::new();
                bytes::push_slice(&mut code, part);
                assert(code@ =~= part@);
                let ghost before = held(r@);
                r.push(Held { id, code });
                assert(held(r@) =~= before.push(all[i as int]));
            }
            i = i + 1;
        }
        proof {
            lemma_without(all, self.deleted@, n as int);
            let live = self.live_in(b as int);
            assert(all.take(n as int) =~= all);
            assert forall|k: int| 0 <= k < r@.len() implies self.holds_id(
                b as int,
                (#[trigger] r@[k]).id,
            ) && !self.deleted@.contains(r@[k].id) && r@[k].id < self.next_id && r@[k].code@
                == self.code_for(self.raw_at(r@[k].id as int), self.centroid(b as int)) by {
                assert(held(r@)[k] == live[k]);
                assert(all.contains(live[k]));
                let j = choose|j: int| 0 <= j < all.len() && all[j] == live[k];
                assert(self.posting(b as int)[j].id == r@[k].id);
            }
            assert forall|x: int, y: int| 0 <= x < y < all.len() implies (#[trigger] all[x]).id != (
            #[trigger] all[y]).id by {
                if all[x].id == all[y].id {
                    assert(self.posting(b as int)[x].id == self.posting(b as int)[y].id);
                }
            }
            assert forall|x: int, y: int| 0 <= x < y < r@.len() implies (#[trigger] r@[x]).id != (
            #[trigger] r@[y]).id by {
                assert(live[x].id != live[y].id);
                assert(held(r@)[x] == live[x] && held(r@)[y] == live[y]);
            }
            assert forall|id: u64| #[trigger]
                self.holds_id(b as int, id) && !self.deleted@.contains(id) implies exists|i: int|
                0 <= i < r@.len() && (#[trigger] r@[i]).id == id by {
                let j = choose|j: int|
                    0 <= j < self.posting(b as int).len() && (#[trigger] self.posting(
                        b as int,
                    )[j]).id == id;
                assert(live.contains(all[j]));
                let k = choose|k: int| 0 <= k < live.len() && live[k] == all[j];
                assert(held(r@)[k].id == id);
                assert(r@[k].id == id);
            }
        }
        r
    }

    /// Replacing the entries of one posting by others that are nowhere else keeps the
    /// index well-formed.
    proof fn lemma_replaced(&self, before: &Self, b: int)
        requires
            before.wf(),
            before.is_posting(b),
            self.same_but(before, b),
            self.postings.wf(),
            forall|i: int|
                0 <= i < self.posting(b).len() ==> {
                    &&& (#[trigger] self.posting(b)[i]).id < before.next_id
                    &&& self.posting(b)[i].code == before.code_for(
                        before.raw_at(self.posting(b)[i].id as int),
                        before.centroid(b),
                    )
                },
            forall|i: int, c: int|
                0 <= i < self.posting(b).len() && c != b ==> !before.holds_id(
                    c,
                    (#[trigger] self.posting(b)[i]).id,
                ) || !#[trigger] before.is_posting(c),
            forall|i: int, j: int|
                0 <= i < j < self.posting(b).len() ==> (#[trigger] self.posting(b)[i]).id != (
                #[trigger] self.posting(b)[j]).id,
        ensures
            self.wf(),
            forall|c: int| c != b && #[trigger] before.is_posting(c) ==> self.posting(c)
                == before.posting(c),
    {
        self.lemma_routing_kept(before);
        assert forall|c: int| c != b && #[trigger] before.is_posting(c) implies self.posting(c)
            == before.posting(c) by {
            assert(self.postings.block(c) == before.postings.block(c));
        }
        assert forall|c: int| #[trigger] self.is_posting(c) implies self.centroid(c).len()
            == self.dim by {
            assert(before.is_posting(c));
        }
        assert forall|c: int, i: int| self.is_posting(c) && 0 <= i < self.posting(c).len() implies {
            &&& (#[trigger] self.posting(c)[i]).id < self.next_id
            &&& self.posting(c)[i].code == self.code_for(
                self.raw_at(self.posting(c)[i].id as int),
                self.centroid(c),
            )
        } by {
            assert(before.is_posting(c));
            if c != b {
                assert(self.posting(c)[i] == before.posting(c)[i]);
            }
        }
        assert forall|c: int, i: int, d: int, j: int|
            self.is_posting(c) && self.is_posting(d) && 0 <= i < self.posting(c).len() && 0 <= j
                < self.posting(d).len() && (#[trigger] self.posting(c)[i]).id == (
            #[trigger] self.posting(d)[j]).id implies c == d && i == j by {
            assert(before.is_posting(c) && before.is_posting(d));
            if c != b && d != b {
                assert(before.posting(c)[i].id == before.posting(d)[j].id);
            } else if c == b && d != b {
                assert(before.posting(d)[j].id == self.posting(b)[i].id);
                assert(before.holds_id(d, self.posting(b)[i].id));
            } else if c != b && d == b {
                assert(before.posting(c)[i].id == self.posting(b)[j].id);
                assert(before.holds_id(c, self.posting(b)[j].id));
            }
        }
    }

    /// Puts entries in place of those of a posting.
    fn rewrite(&mut self, b: u32, entries: &Vec<Held>)
        requires
            old(self).wf(),
            old(self).is_posting(b as int),
            entries@.len() <= old(self).postings.capacity,
            forall|i: int|
                0 <= i < entries@.len() ==> {
                    &&& (#[trigger] entries@[i]).id < old(self).next_id
                    &&& entries@[i].code@ == old(self).code_for(
                        old(self).raw_at(entries@[i].id as int),
                        old(self).centroid(b as int),
                    )
                    &&& entries@[i].code@.len() == old(self).postings.code_size
                },
            forall|i: int, c: int|
                0 <= i < entries@.len() && c != b ==> !old(self).holds_id(
                    c,
                    (#[trigger] entries@[i]).id,
                ) || !#[trigger] old(self).is_posting(c),
            forall|i: int, j: int|
                0 <= i < j < entries@.len() ==> (#[trigger] entries@[i]).id != (
                #[trigger] entries@[j]).id,
        ensures
            final(self).marks_writes(&*old(self)),
            final(self).wf(),
            final(self).same_but(&*old(self), b as int),
            final(self).posting(b as int) == held(entries@),
            forall|c: int| c != b && #[trigger] old(self).is_posting(c) ==> final(self).posting(c)
                == old(self).posting(c),
            old(self).write_seq < u64::MAX ==> final(self).write_seq > old(self).write_seq,
            old(self).write_seq <= final(self).write_seq,
    {
        let ghost before = *self;
        self.mark_dirty(b);
        let ghost marked = *self;
        self.postings.clear(b as usize);
        let mut i: usize = 0;
        assert(self.posting(b as int) =~= held(entries@.take(0)));
        while i < entries.len()
            invariant
                i <= entries@.len() <= self.postings.capacity,
                b < self.postings.count,
                self.same_but(&marked, b as int),
                self.write_seq == marked.write_seq,
                self.dirty == marked.dirty,
                self.postings.wf(),
                self.posting(b as int) == held(entries@.take(i as int)),
                forall|i: int|
                    0 <= i < entries@.len() ==> (#[trigger] entries@[i]).code@.len()
                        == self.postings.code_size,
            decreases entries@.len() - i,
        {
            self.postings.append(b as usize, entries[i].id, entries[i].code.as_slice());
            proof {
                assert(held(entries@.take(i + 1)) =~= held(entries@.take(i as int)).push(
                    Entry { id: entries@[i as int].id, code: entries@[i as int].code@ },
                ));
            }
            i = i + 1;
        }
        proof {
            assert(entries@.take(entries@.len() as int) =~= entries@);
            assert forall|k: int| 0 <= k < self.posting(b as int).len() implies {
                &&& (#[trigger] self.posting(b as int)[k]).id == entries@[k].id
                &&& self.posting(b as int)[k].code == entries@[k].code@
            } by {}
            assert forall|k: int, c: int|
                0 <= k < self.posting(b as int).len() && c != b implies !before.holds_id(
                c,
                (#[trigger] self.posting(b as int)[k]).id,
            ) || !#[trigger] before.is_posting(c) by {
                assert(self.posting(b as int)[k].id == entries@[k].id);
            }
            assert forall|x: int, y: int|
                0 <= x < y < self.posting(b as int).len() implies (#[trigger] self.posting(
                b as int,
            )[x]).id != (#[trigger] self.posting(b as int)[y]).id by {
                assert(entries@[x].id != entries@[y].id);
            }
            self.lemma_replaced(&before, b as int);
            self.lemma_one_written(&before, b);
        }
    }
}

impl<'a, D: Distance> SPFresh<'a, D> {
    /// There are at most `n` more blocks than there were, and at most `n` more nodes in the
    /// graph.
    pub open spec fn has_grown(&self, before: &Self, n: int) -> bool {
        &&& before.block_cid@.len() <= self.block_cid@.len() <= before.block_cid@.len() + n
        &&& self.graph.total() <= before.graph.total() + n
        &&& self.postings.size() == before.postings.size()
    }

    /// There is room for `n` more postings.
    pub open spec fn has_room(&self, n: int) -> bool {
        &&& self.block_cid@.len() + n < u32::MAX
        &&& (self.block_cid@.len() + n) * self.postings.size() <= usize::MAX
        &&& self.graph.total() + n < u32::MAX
    }

    pub(crate) proof fn lemma_less_room(&self, n: int, m: int)
        requires
            self.has_room(n),
            0 <= m <= n,
        ensures
            self.has_room(m),
    {
        let size = self.postings.size();
        let k = self.block_cid@.len() as int;
        if size >= 0 {
            assert((k + m) * size <= (k + n) * size) by (nonlinear_arith)
                requires
                    0 <= m <= n,
                    0 <= size,
            ;
        } else {
            assert((k + m) * size <= 0) by (nonlinear_arith)
                requires
                    0 <= k,
                    0 <= m,
                    size < 0,
            ;
        }
    }

    /// Whether there is room for `n` more postings.
    pub(crate) fn check_room(&self, n: usize) -> (r: bool)
        requires
            self.wf(),
        ensures
            r == self.has_room(n as int),
    {
        let blocks: usize = self.block_cid.len();
        let total: usize = self.graph.stats().base_vectors + self.graph.stats().delta_vectors;
        if n >= u32::MAX as usize || blocks >= u32::MAX as usize - n || total >= u32::MAX as usize
            - n {
            return false;
        }
        proof {
            let size = self.postings.size();
            assert(0 <= (blocks + n) * size) by (nonlinear_arith)
                requires
                    0 <= blocks,
                    0 <= n,
                    0 <= size,
            ;
        }
        let size: usize = self.postings.width();
        match (blocks + n).checked_mul(size) {
            Some(_) => true,
            None => false,
        }
    }

    /// The postings of `before` are there as they were, and there are no others but those
    /// in `fresh`.
    pub open spec fn keeps_postings(&self, before: &Self, fresh: Set<int>) -> bool {
        &&& forall|c: int| #[trigger]
            before.is_posting(c) ==> self.is_posting(c) && !fresh.contains(c) && self.centroid(c)
                == before.centroid(c) && self.posting(c) == before.posting(c)
        &&& forall|c: int| #[trigger]
            self.is_posting(c) ==> before.is_posting(c) || fresh.contains(c)
    }

    /// Finds a block for a new posting: one that was freed before this epoch, or a new one.
    #[verifier::rlimit(40)]
    fn take_block(&mut self) -> (b: u32)
        requires
            old(self).wf(),
            old(self).has_room(1),
        ensures
            final(self).marks_writes(&*old(self)),
            final(self).wf(),
            final(self).same_store(&*old(self)),
            final(self).graph == old(self).graph,
            final(self).cid_block == old(self).cid_block,
            final(self).created == old(self).created,
            final(self).write_seq == old(self).write_seq,
            final(self).keeps_postings(&*old(self), Set::empty()),
            b < final(self).block_cid@.len(),
            !final(self).is_posting(b as int),
            final(self).block_cid@.len() <= old(self).block_cid@.len() + 1,
            old(self).block_cid@.len() <= final(self).block_cid@.len(),
            final(self).postings.size() == old(self).postings.size(),
            forall|i: int| 0 <= i < final(self).free@.len() ==> (#[trigger] final(self).free@[i]).0 != b,
            final(self).took_block(&*old(self), b as int),
            forall|c: int| #[trigger]
                old(self).is_posting(c) ==> final(self).block_cid@[c] == old(self).block_cid@[c],
    {
        let ghost before = *self;
        let mut i: usize = 0;
        while i < self.free.len() && self.free[i].1 >= self.epoch
            invariant
                i <= self.free@.len(),
                history::first_old(self.free@, self.epoch, 0) == history::first_old(
                    self.free@,
                    self.epoch,
                    i as int,
                ),
            decreases self.free@.len() - i,
        {
            i = i + 1;
        }
        if i < self.free.len() {
            let found = self.free.swap_remove(i);
            proof {
                let was = before.free@;
                let now = self.free@;
                assert(now =~= was.update(i as int, was.last()).drop_last());
                assert forall|k: int| 0 <= k < now.len() implies {
                    let m = if k == i {
                        was.len() - 1
                    } else {
                        k
                    };
                    #[trigger] now[k] == was[m] && m != i
                } by {}
                assert forall|k: int| 0 <= k < now.len() implies (#[trigger] now[k]).0
                    < self.block_cid@.len() && !self.is_posting(now[k].0 as int) && now[k].0
                    != found.0 by {
                    let m = if k == i {
                        was.len() - 1
                    } else {
                        k
                    };
                    assert(now[k] == was[m]);
                    assert(!before.is_posting(was[m].0 as int));
                    if m < i {
                        assert(was[m].0 != was[i as int].0);
                    } else {
                        assert(was[i as int].0 != was[m].0);
                    }
                }
                assert forall|x: int, y: int| 0 <= x < y < now.len() implies (
                #[trigger] now[x]).0 != (#[trigger] now[y]).0 by {
                    let m = if x == i {
                        was.len() - 1
                    } else {
                        x
                    };
                    let n = if y == i {
                        was.len() - 1
                    } else {
                        y
                    };
                    assert(now[x] == was[m] && now[y] == was[n]);
                    if m < n {
                        assert(was[m].0 != was[n].0);
                    } else {
                        assert(was[n].0 != was[m].0);
                    }
                }
                assert(!before.is_posting(was[i as int].0 as int));
                assert forall|c: int| #[trigger] self.is_posting(c) implies self.centroid(c).len()
                    == self.dim by {
                    assert(before.is_posting(c));
                }
                self.lemma_other_kept(&before);
                self.lemma_unwritten(&before);
            }
            return found.0;
        }
        let b: u32 = self.block_cid.len() as u32;
        self.postings.grow();
        self.block_cid.push(FREE);
        self.block_centroid.push(Vec::new());
        proof {
            assert forall|c: int| #[trigger] self.is_posting(c) implies before.is_posting(c)
                && self.centroid(c) == before.centroid(c) && self.posting(c) == before.posting(
                c,
            ) by {
                assert(self.block_cid@[c] == before.block_cid@[c]);
                assert(self.postings.block(c) == before.postings.block(c));
            }
            assert forall|c: int| #[trigger] before.is_posting(c) implies self.is_posting(c)
                && self.centroid(c) == before.centroid(c) && self.posting(c) == before.posting(
                c,
            ) by {
                assert(self.block_cid@[c] == before.block_cid@[c]);
                assert(self.postings.block(c) == before.postings.block(c));
            }
            assert forall|k: int| 0 <= k < self.free@.len() implies (#[trigger] self.free@[k]).0
                < self.block_cid@.len() && !self.is_posting(self.free@[k].0 as int) by {
                assert(!before.is_posting(before.free@[k].0 as int));
            }
            self.lemma_other_kept(&before);
            self.lemma_one_more_block(&before);
        }
        b
    }

    /// The same postings, however the other blocks stand, keep the index well-formed.
    proof fn lemma_other_kept(&self, before: &Self)
        requires
            before.wf(),
            self.same_store(before),
            self.graph == before.graph,
            self.cid_block == before.cid_block,
            self.created == before.created,
            self.keeps_postings(before, Set::empty()),
            before.block_cid@.len() <= self.block_cid@.len(),
            forall|c: int| #[trigger]
                before.is_posting(c) ==> self.block_cid@[c] == before.block_cid@[c],
            self.shape(),
            forall|i: int|
                0 <= i < self.free@.len() ==> (#[trigger] self.free@[i]).0 < self.block_cid@.len()
                    && !self.is_posting(self.free@[i].0 as int),
            forall|i: int, j: int|
                0 <= i < j < self.free@.len() ==> (#[trigger] self.free@[i]).0 != (
                #[trigger] self.free@[j]).0,
        ensures
            self.wf(),
    {
        assert forall|b: int| #[trigger] self.is_posting(b) implies self.cid_block@.contains_key(
            self.block_cid@[b],
        ) && self.cid_block@[self.block_cid@[b]] == b && self.graph_has(b) by {
            assert(before.is_posting(b));
            assert(before.graph_has(b));
        }
        assert forall|cid: u64| #[trigger] self.cid_block@.contains_key(cid) implies self.is_posting(
            self.cid_block@[cid] as int,
        ) && self.block_cid@[self.cid_block@[cid] as int] == cid by {
            assert(before.cid_block@.contains_key(cid));
            assert(before.is_posting(before.cid_block@[cid] as int));
        }
        assert forall|cid: u64| #[trigger] self.graph.tombstones@.contains(cid) implies self.in_graph(
            cid,
        ) by {
            assert(before.in_graph(cid));
        }
        assert forall|c: int, i: int| self.is_posting(c) && 0 <= i < self.posting(c).len() implies {
            &&& (#[trigger] self.posting(c)[i]).id < self.next_id
            &&& self.posting(c)[i].code == self.code_for(
                self.raw_at(self.posting(c)[i].id as int),
                self.centroid(c),
            )
        } by {
            assert(before.is_posting(c));
            assert(self.posting(c)[i] == before.posting(c)[i]);
        }
        assert forall|c: int, i: int, d: int, j: int|
            self.is_posting(c) && self.is_posting(d) && 0 <= i < self.posting(c).len() && 0 <= j
                < self.posting(d).len() && (#[trigger] self.posting(c)[i]).id == (
            #[trigger] self.posting(d)[j]).id implies c == d && i == j by {
            assert(before.is_posting(c) && before.is_posting(d));
            assert(before.posting(c)[i].id == before.posting(d)[j].id);
        }
    }
}

impl<'a, D: Distance> SPFresh<'a, D> {
    /// Starts an empty posting about a centroid.
    #[verifier::rlimit(40)]
    pub(crate) fn new_posting(&mut self, centroid: Vec<u32>) -> (b: u32)
        requires
            old(self).wf(),
            old(self).has_room(1),
            centroid@.len() == old(self).dim,
        ensures
            final(self).marks_writes(&*old(self)),
            final(self).wf(),
            final(self).same_store(&*old(self)),
            final(self).keeps_postings(&*old(self), set![b as int]),
            final(self).is_posting(b as int),
            !old(self).is_posting(b as int),
            final(self).centroid(b as int) == centroid@,
            final(self).posting(b as int).len() == 0,
            final(self).created@ == old(self).created@.push(b),
            final(self).has_grown(&*old(self), 1),
            forall|n: int| #[trigger] old(self).has_room(n + 1) ==> final(self).has_room(n),
            old(self).block_cid@.len() <= final(self).block_cid@.len(),
            old(self).write_seq < u64::MAX ==> final(self).write_seq > old(self).write_seq,
            old(self).write_seq <= final(self).write_seq,
            final(self).opened_posting(&*old(self), b as int, centroid@),
    {
        broadcast use vstd::std_specs::hash::group_hash_axioms;

        let ghost pre = *self;
        let b: u32 = self.take_block();
        let ghost before = *self;
        let mut one: Vec<Vec<u32>> = Vec::new();
        let copy = centroid.clone();
        assert(copy@ =~= centroid@);
        one.push(copy);
        proof {
            assert(crate::index::first_mismatch(one@, self.dim as int, 1) is None);
            assert(crate::index::first_mismatch(one@, self.dim as int, 0) is None);
        }
        let added = self.graph.add_vectors(&one);
        let ghost labels = if before.graph.num_label_fields > 0 {
            Seq::new(one@.len(), |i: int| incremental::zeros(before.graph.num_label_fields as int))
        } else {
            Seq::empty()
        };
        let cid: u64 = match added {
            Ok(ids) => ids[0],
            Err(_) => 0,
        };
        self.block_cid.set(b as usize, cid);
        self.cid_block.insert(cid, b);
        self.block_centroid.set(b as usize, centroid);
        self.created.push(b);
        self.mark_dirty(b);
        self.postings.clear(b as usize);
        proof {
            self.lemma_one_written(&before, b);
            self.lemma_written(&before, &pre);
            let g0 = before.graph;
            let g1 = self.graph;
            let t = g0.total();
            assert(g1.is_extension(&g0, one@, labels, added->Ok_0@));
            assert(IncrementalDiskANN::added(&g0, one@, &g1, added));
            assert(history::took_centroid(&pre.graph, centroid@, cid, &self.graph));
            assert(cid == g1.global(t));
            assert(g1.vector_at(t) == one@[0]@);
            assert(cid != FREE);
            assert forall|pos: int| 0 <= pos < t implies g1.global(pos) == g0.global(pos)
                && g1.global(pos) != cid && #[trigger] g1.live_at(pos) == g0.live_at(pos)
                && g1.vector_at(pos) == g0.vector_at(pos) by {
                incremental::additions_keep_the_rest(&g0, one@, labels, added->Ok_0@, &g1, pos);
            }
            assert(!before.in_graph(cid)) by {
                if before.in_graph(cid) {
                    let pos = choose|pos: int|
                        0 <= pos < g0.total() && #[trigger] g0.global(pos) == cid;
                    assert(g1.live_at(pos) == g0.live_at(pos));
                }
            }
            assert(g1.live_at(t)) by {
                if g0.tombstones@.contains(cid) {
                    assert(before.in_graph(cid));
                }
            }
            assert(!before.cid_block@.contains_key(cid)) by {
                if before.cid_block@.contains_key(cid) {
                    let c = before.cid_block@[cid] as int;
                    assert(before.is_posting(c));
                    assert(before.graph_has(c));
                    assert(before.in_graph(cid));
                }
            }
            assert forall|c: int| #[trigger] self.is_posting(c) implies c == b || (
            before.is_posting(c) && self.centroid(c) == before.centroid(c) && self.posting(c)
                == before.posting(c) && self.block_cid@[c] == before.block_cid@[c]) by {
                if c != b {
                    assert(self.postings.block(c) == before.postings.block(c));
                }
            }
            assert forall|c: int| #[trigger] before.is_posting(c) implies c != b && self.is_posting(
                c,
            ) && self.centroid(c) == before.centroid(c) && self.posting(c) == before.posting(
                c,
            ) by {
                assert(self.postings.block(c) == before.postings.block(c));
            }
            assert(self.shape());
            assert(self.routed()) by {
                assert forall|c: int| #[trigger] self.is_posting(c) implies self.cid_block@.contains_key(
                    self.block_cid@[c],
                ) && self.cid_block@[self.block_cid@[c]] == c && self.graph_has(c) by {
                    if c == b {
                        assert(self.graph.global(t) == self.block_cid@[c]);
                    } else {
                        assert(before.is_posting(c));
                        assert(before.graph_has(c));
                        let pos = choose|pos: int|
                            0 <= pos < g0.total() && #[trigger] g0.global(pos)
                                == before.block_cid@[c] && g0.live_at(pos) && g0.vector_at(pos)
                                == before.centroid(c);
                        assert(g1.live_at(pos) == g0.live_at(pos));
                        assert(g1.global(pos) == self.block_cid@[c]);
                    }
                }
                assert forall|x: u64| #[trigger] self.cid_block@.contains_key(x) implies self.is_posting(
                    self.cid_block@[x] as int,
                ) && self.block_cid@[self.cid_block@[x] as int] == x by {
                    if x != cid {
                        assert(before.cid_block@.contains_key(x));
                        assert(before.is_posting(before.cid_block@[x] as int));
                    }
                }
                assert forall|pos: int|
                    0 <= pos < self.graph.total() && #[trigger] self.graph.live_at(
                        pos,
                    ) implies self.cid_block@.contains_key(self.graph.global(pos)) by {
                    if pos < t {
                        assert(g0.live_at(pos));
                    }
                }
                assert forall|x: u64| #[trigger] self.graph.tombstones@.contains(x) implies self.in_graph(
                    x,
                ) by {
                    assert(before.in_graph(x));
                    let pos = choose|pos: int|
                        0 <= pos < g0.total() && #[trigger] g0.global(pos) == x;
                    assert(g1.live_at(pos) == g0.live_at(pos));
                    assert(g1.global(pos) == x);
                }
            }
            assert(self.freed()) by {
                assert forall|i: int| 0 <= i < self.free@.len() implies (
                #[trigger] self.free@[i]).0 < self.block_cid@.len() && !self.is_posting(
                    self.free@[i].0 as int,
                ) by {
                    assert(!before.is_posting(before.free@[i].0 as int));
                    assert(before.free@[i].0 != b);
                }
            }
            assert(self.coded()) by {
                assert forall|c: int, i: int|
                    self.is_posting(c) && 0 <= i < self.posting(c).len() implies {
                    &&& (#[trigger] self.posting(c)[i]).id < self.next_id
                    &&& self.posting(c)[i].code == self.code_for(
                        self.raw_at(self.posting(c)[i].id as int),
                        self.centroid(c),
                    )
                } by {
                    assert(before.is_posting(c));
                    assert(self.posting(c)[i] == before.posting(c)[i]);
                }
            }
            assert(self.unique()) by {
                assert forall|c: int, i: int, d: int, j: int|
                    self.is_posting(c) && self.is_posting(d) && 0 <= i < self.posting(c).len()
                        && 0 <= j < self.posting(d).len() && (#[trigger] self.posting(c)[i]).id == (
                    #[trigger] self.posting(d)[j]).id implies c == d && i == j by {
                    assert(before.posting(c)[i].id == before.posting(d)[j].id);
                }
            }
            assert forall|n: int| #[trigger] pre.has_room(n + 1) implies self.has_room(n) by {
                let size = self.postings.size();
                let was = pre.block_cid@.len() as int;
                let now = self.block_cid@.len() as int;
                assert((now + n) * size <= (was + (n + 1)) * size) by (nonlinear_arith)
                    requires
                        now <= was + 1,
                        0 <= size,
                ;
            }
        }
        b
    }
}

impl<'a, D: Distance> SPFresh<'a, D> {
    /// Gives up a posting with its entries.
    #[verifier::rlimit(40)]
    fn free_posting(&mut self, b: u32)
        requires
            old(self).wf(),
            old(self).is_posting(b as int),
        ensures
            final(self).marks_writes(&*old(self)),
            final(self).wf(),
            final(self).same_store(&*old(self)),
            !final(self).is_posting(b as int),
            forall|c: int| #[trigger]
                final(self).is_posting(c) <==> old(self).is_posting(c) && c != b,
            forall|c: int| #[trigger]
                old(self).is_posting(c) && c != b ==> final(self).centroid(c) == old(self).centroid(
                    c,
                ) && final(self).posting(c) == old(self).posting(c),
            final(self).created == old(self).created,
            final(self).free@ == old(self).free@.push((b, old(self).epoch)),
            final(self).has_grown(&*old(self), 0),
            forall|n: int| #[trigger] old(self).has_room(n) ==> final(self).has_room(n),
            old(self).block_cid@.len() == final(self).block_cid@.len(),
            old(self).write_seq < u64::MAX ==> final(self).write_seq > old(self).write_seq,
            old(self).write_seq <= final(self).write_seq,
            final(self).cid_block@.len() + 1 == old(self).cid_block@.len(),
            final(self).gave_up(&*old(self), b as int),
    {
        broadcast use vstd::std_specs::hash::group_hash_axioms;

        let ghost before = *self;
        let cid: u64 = self.block_cid[b as usize];
        self.block_cid.set(b as usize, FREE);
        let ids: Vec<u64> = vec![cid];
        let _ = self.graph.delete_vectors(ids.as_slice());
        self.cid_block.remove(&cid);
        self.block_centroid.set(b as usize, Vec::new());
        self.mark_dirty(b);
        self.postings.clear(b as usize);
        self.free.push((b, self.epoch));
        proof {
            self.lemma_one_written(&before, b);
            let g0 = before.graph;
            let g1 = self.graph;
            assert(ids@ =~= seq![cid]);
            assert(ids@.to_set() =~= set![cid]) by {
                assert forall|x: u64| ids@.to_set().contains(x) <==> x == cid by {
                    assert(ids@[0] == cid);
                }
            }
            assert(g1.tombstones@ =~= g0.tombstones@.insert(cid));
            assert(before.cid_block@.contains_key(cid));
            assert forall|pos: int| 0 <= pos < g0.total() implies g1.global(pos) == g0.global(pos)
                && g1.vector_at(pos) == g0.vector_at(pos) && #[trigger] g1.live_at(pos) == (
            g0.live_at(pos) && g0.global(pos) != cid) by {}
            assert forall|c: int| #[trigger] self.is_posting(c) <==> before.is_posting(c) && c != b by {}
            assert forall|c: int| #[trigger] before.is_posting(c) && c != b implies self.centroid(c)
                == before.centroid(c) && self.posting(c) == before.posting(c)
                && self.block_cid@[c] == before.block_cid@[c] && self.block_cid@[c] != cid by {
                assert(self.postings.block(c) == before.postings.block(c));
                if before.block_cid@[c] == cid {
                    assert(before.is_posting(b as int));
                }
            }
            assert(self.shape()) by {
                assert forall|c: int| #[trigger] self.is_posting(c) implies self.centroid(c).len()
                    == self.dim by {
                    assert(before.is_posting(c));
                }
            }
            assert(self.routed()) by {
                assert forall|c: int| #[trigger] self.is_posting(c) implies self.cid_block@.contains_key(
                    self.block_cid@[c],
                ) && self.cid_block@[self.block_cid@[c]] == c && self.graph_has(c) by {
                    assert(before.is_posting(c));
                    assert(before.graph_has(c));
                    let pos = choose|pos: int|
                        0 <= pos < g0.total() && #[trigger] g0.global(pos)
                            == before.block_cid@[c] && g0.live_at(pos) && g0.vector_at(pos)
                            == before.centroid(c);
                    assert(g1.live_at(pos));
                    assert(g1.global(pos) == self.block_cid@[c]);
                }
                assert forall|x: u64| #[trigger] self.cid_block@.contains_key(x) implies self.is_posting(
                    self.cid_block@[x] as int,
                ) && self.block_cid@[self.cid_block@[x] as int] == x by {
                    assert(before.cid_block@.contains_key(x));
                    assert(before.is_posting(before.cid_block@[x] as int));
                }
                assert forall|pos: int|
                    0 <= pos < self.graph.total() && #[trigger] self.graph.live_at(
                        pos,
                    ) implies self.cid_block@.contains_key(self.graph.global(pos)) by {
                    assert(g0.live_at(pos));
                }
                assert forall|x: u64| #[trigger] self.graph.tombstones@.contains(x) implies self.in_graph(
                    x,
                ) by {
                    if x == cid {
                        assert(before.graph_has(b as int));
                        let pos = choose|pos: int|
                            0 <= pos < g0.total() && #[trigger] g0.global(pos)
                                == before.block_cid@[b as int] && g0.live_at(pos) && g0.vector_at(
                                pos,
                            ) == before.centroid(b as int);
                        assert(g1.global(pos) == x);
                    } else {
                        assert(before.in_graph(x));
                        let pos = choose|pos: int|
                            0 <= pos < g0.total() && #[trigger] g0.global(pos) == x;
                        assert(g1.global(pos) == x);
                    }
                }
            }
            assert(self.freed()) by {
                assert forall|i: int| 0 <= i < self.free@.len() implies (
                #[trigger] self.free@[i]).0 < self.block_cid@.len() && !self.is_posting(
                    self.free@[i].0 as int,
                ) && (i < before.free@.len() ==> self.free@[i].0 != b) by {
                    if i < before.free@.len() {
                        assert(!before.is_posting(before.free@[i].0 as int));
                        assert(before.is_posting(b as int));
                    }
                }
            }
            assert(self.coded()) by {
                assert forall|c: int, i: int|
                    self.is_posting(c) && 0 <= i < self.posting(c).len() implies {
                    &&& (#[trigger] self.posting(c)[i]).id < self.next_id
                    &&& self.posting(c)[i].code == self.code_for(
                        self.raw_at(self.posting(c)[i].id as int),
                        self.centroid(c),
                    )
                } by {
                    assert(before.is_posting(c));
                    assert(self.posting(c)[i] == before.posting(c)[i]);
                }
            }
            assert(self.unique()) by {
                assert forall|c: int, i: int, d: int, j: int|
                    self.is_posting(c) && self.is_posting(d) && 0 <= i < self.posting(c).len()
                        && 0 <= j < self.posting(d).len() && (#[trigger] self.posting(c)[i]).id == (
                    #[trigger] self.posting(d)[j]).id implies c == d && i == j by {
                    assert(before.is_posting(c) && before.is_posting(d));
                    assert(before.posting(c)[i].id == before.posting(d)[j].id);
                }
            }
        }
    }

    /// The first `upto` blocks that hold postings, with the distances of their centroids
    /// from a vector.
    pub open spec fn centroids_upto(&self, v: Seq<u32>, upto: int) -> Seq<Candidate>
        decreases upto,
    {
        if upto <= 0 {
            Seq::empty()
        } else if self.is_posting(upto - 1) {
            self.centroids_upto(v, upto - 1).push(
                Candidate {
                    dist: self.dist.eval_spec(v, self.centroid(upto - 1)),
                    id: (upto - 1) as u32,
                },
            )
        } else {
            self.centroids_upto(v, upto - 1)
        }
    }

    /// Ids of centroids as their blocks, where they have one.
    pub open spec fn blocks_of(&self, hits: Seq<Hit>) -> Seq<Candidate>
        decreases hits.len(),
    {
        if hits.len() == 0 {
            Seq::empty()
        } else {
            let before = self.blocks_of(hits.drop_last());
            if self.cid_block@.contains_key(hits.last().id) {
                before.push(
                    Candidate { dist: hits.last().dist, id: self.cid_block@[hits.last().id] },
                )
            } else {
                before
            }
        }
    }

    /// The beam of a search for `n` centroids.
    pub open spec fn beam_for(&self, n: int) -> int {
        if self.cfg.centroid_beam > n {
            self.cfg.centroid_beam as int
        } else {
            n
        }
    }

    /// What `nearest` returns: up to `n` of the nearest postings, nearest first. All
    /// centroids are compared when there are few; else the graph is searched.
    pub open spec fn nearest_result(&self, v: &[u32], n: int, hits: Seq<Hit>, r: Seq<Candidate>) -> bool {
        if self.cid_block@.len() <= BRUTE_FORCE_CENTROIDS {
            candidate::lowest(
                self.centroids_upto(v@, self.block_cid@.len() as int),
                n,
                r,
            )
        } else {
            &&& exists|prep: Prepared, t: Trace, found: Seq<Candidate>, kept: Seq<Candidate>|
                #[trigger] self.graph.search_result(
                    v,
                    n,
                    self.beam_for(n),
                    prep,
                    t,
                    found,
                    kept,
                    hits,
                )
            &&& r == self.blocks_of(hits)
        }
    }

    pub(crate) proof fn lemma_centroids(&self, v: Seq<u32>, upto: int)
        requires
            0 <= upto <= self.block_cid@.len() < u32::MAX,
        ensures
            self.centroids_upto(v, upto).len() <= upto,
            forall|i: int|
                0 <= i < self.centroids_upto(v, upto).len() ==> {
                    let c = #[trigger] self.centroids_upto(v, upto)[i];
                    c.id < upto && self.is_posting(c.id as int) && c.dist == self.dist.eval_spec(
                        v,
                        self.centroid(c.id as int),
                    )
                },
            forall|b: int|
                0 <= b < upto && #[trigger] self.is_posting(b) ==> candidate::holds_id(
                    self.centroids_upto(v, upto),
                    b as u32,
                ),
            candidate::distinct(self.centroids_upto(v, upto)),
        decreases upto,
    {
        if upto > 0 {
            self.lemma_centroids(v, upto - 1);
            let before = self.centroids_upto(v, upto - 1);
            let now = self.centroids_upto(v, upto);
            assert forall|b: int| 0 <= b < upto && #[trigger] self.is_posting(b) implies candidate::holds_id(
                now,
                b as u32,
            ) by {
                if b == upto - 1 {
                    assert(now[before.len() as int].id == b);
                } else {
                    assert(candidate::holds_id(before, b as u32));
                    let i = choose|i: int|
                        0 <= i < before.len() && (#[trigger] before[i]).id == b as u32;
                    assert(now[i].id == b as u32);
                }
            }
        }
    }

    /// Up to `n` of the nearest postings, nearest first.
    pub(crate) fn nearest(&self, v: &[u32], n: usize) -> (r: Vec<Candidate>)
        requires
            self.wf(),
            v@.len() == self.dim,
            16 * n <= usize::MAX,
        ensures
            exists|hits: Seq<Hit>| #[trigger] self.nearest_result(v, n as int, hits, r@),
            r@.len() <= n,
            forall|i: int| 0 <= i < r@.len() ==> self.is_posting((#[trigger] r@[i]).id as int),
            candidate::distinct(r@),
            self.cid_block@.len() <= BRUTE_FORCE_CENTROIDS && n > 0 && (exists|b: int|
                #[trigger] self.is_posting(b)) ==> r@.len() > 0,
    {
        broadcast use vstd::std_specs::hash::group_hash_axioms;

        if self.cid_block.len() <= BRUTE_FORCE_CENTROIDS {
            self.nearest_of_all(v, n)
        } else {
            self.nearest_by_graph(v, n)
        }
    }

    /// Compares all centroids.
    #[verifier::spinoff_prover]
    fn nearest_of_all(&self, v: &[u32], n: usize) -> (r: Vec<Candidate>)
        requires
            self.wf(),
            v@.len() == self.dim,
            self.cid_block@.len() <= BRUTE_FORCE_CENTROIDS,
        ensures
            exists|hits: Seq<Hit>| #[trigger] self.nearest_result(v, n as int, hits, r@),
            r@.len() <= n,
            forall|i: int| 0 <= i < r@.len() ==> self.is_posting((#[trigger] r@[i]).id as int),
            candidate::distinct(r@),
            n > 0 && (exists|b: int| #[trigger] self.is_posting(b)) ==> r@.len() > 0,
    {
        let total: usize = self.block_cid.len();
        let mut all: Vec<Candidate> = Vec::new();
        let mut b: usize = 0;
        while b < total
            invariant
                b <= total == self.block_cid@.len(),
                self.wf(),
                v@.len() == self.dim,
                all@ == self.centroids_upto(v@, b as int),
            decreases total - b,
        {
            if self.is_live(b as u32) {
                assert(self.is_posting(b as int));
                let d: u32 = self.dist.eval(v, self.block_centroid[b].as_slice());
                all.push(Candidate { dist: d, id: b as u32 });
            }
            b = b + 1;
        }
        let ghost listed = all@;
        let r = take_lowest(all, n);
        proof {
            self.lemma_centroids(v@, total as int);
            let sorted = choose|sorted: Seq<Candidate>| #[trigger]
                candidate::same_items(sorted, listed) && candidate::ranked(sorted) && r@
                    == candidate::first(sorted, n as int);
            assert(sorted.to_multiset() =~= listed.to_multiset());
            candidate::lemma_same_items(sorted, listed);
            assert(listed.to_multiset() =~= sorted.to_multiset());
            candidate::lemma_same_items(listed, sorted);
            assert(candidate::distinct(r@)) by {
                assert forall|i: int, j: int| 0 <= i < j < r@.len() implies (
                #[trigger] r@[i]).id != (#[trigger] r@[j]).id by {
                    assert(sorted[i].id != sorted[j].id);
                }
            }
            assert forall|i: int| 0 <= i < r@.len() implies self.is_posting(
                (#[trigger] r@[i]).id as int,
            ) by {
                assert(sorted[i] == r@[i]);
                assert(sorted.contains(r@[i]));
                assert(listed.contains(r@[i]));
                let j = choose|j: int| 0 <= j < listed.len() && listed[j] == r@[i];
                assert(self.is_posting(listed[j].id as int));
            }
            if n > 0 && exists|b: int| #[trigger] self.is_posting(b) {
                let b = choose|b: int| #[trigger] self.is_posting(b);
                assert(candidate::holds_id(listed, b as u32));
                assert(sorted.len() > 0);
            }
            assert(self.nearest_result(v, n as int, Seq::empty(), r@));
        }
        r
    }

    /// The postings about the centroids that were found.
    fn blocks_found(&self, hits: &Vec<Hit>) -> (r: Vec<Candidate>)
        requires
            self.wf(),
            candidate::distinct(hits@),
        ensures
            r@ == self.blocks_of(hits@),
            r@.len() <= hits@.len(),
            forall|i: int| 0 <= i < r@.len() ==> self.is_posting((#[trigger] r@[i]).id as int),
            candidate::distinct(r@),
    {
        broadcast use vstd::std_specs::hash::group_hash_axioms;

        let mut r: Vec<Candidate> = Vec::new();
        let mut i: usize = 0;
        assert(hits@.take(0) =~= Seq::empty());
        while i < hits.len()
            invariant
                i <= hits@.len(),
                self.wf(),
                candidate::distinct(hits@),
                r@ == self.blocks_of(hits@.take(i as int)),
                r@.len() <= i,
                forall|k: int| 0 <= k < r@.len() ==> self.is_posting((#[trigger] r@[k]).id as int),
                forall|k: int|
                    0 <= k < r@.len() ==> exists|m: int|
                        0 <= m < i && (#[trigger] hits@[m]).id == self.block_cid@[(
                        #[trigger] r@[k]).id as int],
                candidate::distinct(r@),
            decreases hits@.len() - i,
        {
            broadcast use vstd::std_specs::hash::group_hash_axioms;

            assert(hits@.take(i + 1).drop_last() =~= hits@.take(i as int));
            let ghost before = r@;
            match self.cid_block.get(&hits[i].id) {
                Some(b) => {
                    assert(self.cid_block@.contains_key(hits@[i as int].id));
                    r.push(Candidate { dist: hits[i].dist, id: *b });
                },
                None => {},
            }
            proof {
                assert forall|k: int| 0 <= k < r@.len() implies exists|m: int|
                    0 <= m < i + 1 && (#[trigger] hits@[m]).id == self.block_cid@[(
                    #[trigger] r@[k]).id as int] by {
                    if k < before.len() {
                        assert(r@[k] == before[k]);
                        let m = choose|m: int|
                            0 <= m < i && (#[trigger] hits@[m]).id
                                == self.block_cid@[before[k].id as int];
                        assert(hits@[m].id == self.block_cid@[r@[k].id as int]);
                    } else {
                        assert(hits@[i as int].id == self.block_cid@[r@[k].id as int]);
                    }
                }
                assert forall|k: int, l: int| 0 <= k < l < r@.len() implies (
                #[trigger] r@[k]).id != (#[trigger] r@[l]).id by {
                    if l == before.len() {
                        assert(r@[k] == before[k]);
                        let m = choose|m: int|
                            0 <= m < i && (#[trigger] hits@[m]).id
                                == self.block_cid@[before[k].id as int];
                        assert(hits@[m].id != hits@[i as int].id);
                    } else {
                        assert(before[k].id != before[l].id);
                    }
                }
            }
            i = i + 1;
        }
        assert(hits@.take(hits@.len() as int) =~= hits@);
        r
    }

    /// Searches the graph.
    #[verifier::spinoff_prover]
    #[verifier::rlimit(40)]
    fn nearest_by_graph(&self, v: &[u32], n: usize) -> (r: Vec<Candidate>)
        requires
            self.wf(),
            v@.len() == self.dim,
            16 * n <= usize::MAX,
            self.cid_block@.len() > BRUTE_FORCE_CENTROIDS,
        ensures
            exists|hits: Seq<Hit>| #[trigger] self.nearest_result(v, n as int, hits, r@),
            r@.len() <= n,
            forall|i: int| 0 <= i < r@.len() ==> self.is_posting((#[trigger] r@[i]).id as int),
            candidate::distinct(r@),
    {
        let beam: usize = if self.cfg.centroid_beam > n {
            self.cfg.centroid_beam
        } else {
            n
        };
        let hits = self.graph.search_with_dists(v, n, beam);
        let r = self.blocks_found(&hits);
        proof {
            assert(beam as int == self.beam_for(n as int));
            assert(self.nearest_result(v, n as int, hits@, r@));
        }
        r
    }
}

/// An entry that is to change its posting.
#[derive(Clone, Copy, Debug)]
pub struct Move {
    pub id: u64,
    pub to: u32,
}

impl<'a, D: Distance> SPFresh<'a, D> {
    /// The first of the nearest postings other than `p` among the first `upto` of `cands`.
    pub open spec fn best_target(&self, v: Seq<u32>, p: int, cands: Seq<u32>, upto: int) -> Option<
        Candidate,
    >
        decreases upto,
    {
        if upto <= 0 {
            None
        } else {
            let before = self.best_target(v, p, cands, upto - 1);
            let t = cands[upto - 1];
            if t == p || !self.is_posting(t as int) {
                before
            } else {
                let d = self.dist.eval_spec(v, self.centroid(t as int));
                match before {
                    Some(c) => if word::rank(d) < word::rank(c.dist) {
                        Some(Candidate { dist: d, id: t })
                    } else {
                        before
                    },
                    None => Some(Candidate { dist: d, id: t }),
                }
            }
        }
    }

    /// Where the entry of a vector in posting `p` should go: to the nearest of `cands`, if
    /// that is nearer than the centroid of `p`.
    pub open spec fn wanted(&self, id: u64, p: int, cands: Seq<u32>) -> Option<u32> {
        let v = self.raw_at(id as int);
        match self.best_target(v, p, cands, cands.len() as int) {
            Some(c) => if word::less(c.dist, self.dist.eval_spec(v, self.centroid(p))) {
                Some(c.id)
            } else {
                None
            },
            None => None,
        }
    }

    /// The moves that the first `upto` of some entries of posting `p` ask for.
    pub open spec fn moves_for(
        &self,
        entries: Seq<Entry>,
        p: int,
        cands: Seq<u32>,
        upto: int,
    ) -> Seq<Move>
        decreases upto,
    {
        if upto <= 0 {
            Seq::empty()
        } else {
            let before = self.moves_for(entries, p, cands, upto - 1);
            let id = entries[upto - 1].id;
            match self.wanted(id, p, cands) {
                Some(to) => before.push(Move { id, to }),
                None => before,
            }
        }
    }

    fn find_target(&self, v: &[u32], p: u32, cands: &Vec<u32>) -> (r: Option<Candidate>)
        requires
            self.wf(),
            v@.len() == self.dim,
            forall|i: int| 0 <= i < cands@.len() ==> #[trigger] cands@[i] < self.block_cid@.len(),
        ensures
            r == self.best_target(v@, p as int, cands@, cands@.len() as int),
            r matches Some(c) ==> self.is_posting(c.id as int) && c.id != p,
    {
        let mut best: Option<Candidate> = None;
        let mut i: usize = 0;
        while i < cands.len()
            invariant
                i <= cands@.len(),
                self.wf(),
                v@.len() == self.dim,
                forall|i: int|
                    0 <= i < cands@.len() ==> #[trigger] cands@[i] < self.block_cid@.len(),
                best == self.best_target(v@, p as int, cands@, i as int),
                best matches Some(c) ==> self.is_posting(c.id as int) && c.id != p,
            decreases cands@.len() - i,
        {
            let t: u32 = cands[i];
            if t != p && self.is_live(t) {
                assert(self.is_posting(t as int));
                let d: u32 = self.dist.eval(v, self.block_centroid[t as usize].as_slice());
                let better: bool = match best {
                    Some(c) => word::rank_of(d) < word::rank_of(c.dist),
                    None => true,
                };
                if better {
                    best = Some(Candidate { dist: d, id: t });
                }
            }
            i = i + 1;
        }
        best
    }

    /// The moves that the live entries of a posting ask for.
    fn local_moves(&self, p: u32, cands: &Vec<u32>) -> (r: Vec<Move>)
        requires
            self.wf(),
            self.is_posting(p as int),
            forall|i: int| 0 <= i < cands@.len() ==> #[trigger] cands@[i] < self.block_cid@.len(),
        ensures
            r@ == self.moves_for(
                self.live_in(p as int),
                p as int,
                cands@,
                self.live_in(p as int).len() as int,
            ),
            self.are_moves(p as int, r@),
    {
        let entries = self.live_entries(p);
        let ghost live = self.live_in(p as int);
        let mut r: Vec<Move> = Vec::new();
        let mut i: usize = 0;
        while i < entries.len()
            invariant
                i <= entries@.len(),
                self.wf(),
                self.is_posting(p as int),
                forall|i: int|
                    0 <= i < cands@.len() ==> #[trigger] cands@[i] < self.block_cid@.len(),
                live == self.live_in(p as int),
                held(entries@) == live,
                forall|k: int|
                    0 <= k < entries@.len() ==> self.holds_id(p as int, (#[trigger] entries@[k]).id)
                        && !self.deleted@.contains(entries@[k].id) && entries@[k].id
                        < self.next_id,
                forall|k: int, l: int|
                    0 <= k < l < entries@.len() ==> (#[trigger] entries@[k]).id != (
                    #[trigger] entries@[l]).id,
                r@ == self.moves_for(live, p as int, cands@, i as int),
                self.are_moves(p as int, r@),
                forall|k: int|
                    0 <= k < r@.len() ==> exists|l: int|
                        0 <= l < i && (#[trigger] entries@[l]).id == (#[trigger] r@[k]).id,
            decreases entries@.len() - i,
        {
            let id: u64 = entries[i].id;
            assert(held(entries@)[i as int].id == id);
            let v = self.raw(id);
            let own: u32 = self.dist.eval(v, self.block_centroid[p as usize].as_slice());
            let ghost before = r@;
            match self.find_target(v, p, cands) {
                Some(c) => {
                    if word::lt(c.dist, own) {
                        r.push(Move { id, to: c.id });
                    }
                },
                None => {},
            }
            proof {
                assert forall|k: int| 0 <= k < r@.len() implies exists|l: int|
                    0 <= l < i + 1 && (#[trigger] entries@[l]).id == (#[trigger] r@[k]).id by {
                    if k < before.len() {
                        assert(r@[k] == before[k]);
                        let l = choose|l: int|
                            0 <= l < i && (#[trigger] entries@[l]).id == before[k].id;
                        assert(entries@[l].id == r@[k].id);
                    } else {
                        assert(entries@[i as int].id == r@[k].id);
                    }
                }
                assert forall|k: int, l: int| 0 <= k < l < r@.len() implies (
                #[trigger] r@[k]).id != (#[trigger] r@[l]).id by {
                    if l == before.len() {
                        assert(before[k] == r@[k]);
                        let m = choose|m: int|
                            0 <= m < i && (#[trigger] entries@[m]).id == before[k].id;
                        assert(entries@[m].id != entries@[i as int].id);
                    } else {
                        assert(before[k].id != before[l].id);
                    }
                }
            }
            i = i + 1;
        }
        assert(live.len() == entries@.len());
        r
    }

    /// Moves of live entries of posting `from` to other postings, one for an entry.
    pub open spec fn are_moves(&self, from: int, moves: Seq<Move>) -> bool {
        &&& forall|i: int|
            0 <= i < moves.len() ==> {
                &&& self.holds_id(from, (#[trigger] moves[i]).id)
                &&& !self.deleted@.contains(moves[i].id)
                &&& self.is_posting(moves[i].to as int)
                &&& moves[i].to != from
            }
        &&& forall|i: int, j: int|
            0 <= i < j < moves.len() ==> (#[trigger] moves[i]).id != (#[trigger] moves[j]).id
    }

    /// The postings around a posting's centroid.
    fn neighbourhood(&self, p: u32) -> (r: Vec<u32>)
        requires
            self.wf(),
            self.is_posting(p as int),
        ensures
            exists|v: &[u32], hits: Seq<Hit>, found: Seq<Candidate>| #[trigger]
                self.nearest_result(v, self.cfg.reassign_neighbors + 2, hits, found) && v@
                    == self.centroid(p as int) && r@ == crate::index::ids(found),
            forall|i: int| 0 <= i < r@.len() ==> self.is_posting(#[trigger] r@[i] as int),
    {
        let v = self.block_centroid[p as usize].as_slice();
        let n: usize = self.cfg.reassign_neighbors + 2;
        let found = self.nearest(v, n);
        let r = crate::index::ids_of(&found);
        proof {
            let hits = choose|hits: Seq<Hit>| #[trigger]
                self.nearest_result(v, n as int, hits, found@);
            assert(self.nearest_result(v, self.cfg.reassign_neighbors + 2, hits, found@));
            assert forall|i: int| 0 <= i < r@.len() implies self.is_posting(
                #[trigger] r@[i] as int,
            ) by {
                assert(self.is_posting(found@[i].id as int));
            }
        }
        r
    }
}

fn has_block(queue: &Vec<u32>, b: u32) -> (r: bool)
    ensures
        r == queue@.contains(b),
{
    let mut i: usize = 0;
    while i < queue.len()
        invariant
            i <= queue@.len(),
            forall|k: int| 0 <= k < i ==> #[trigger] queue@[k] != b,
        decreases queue@.len() - i,
    {
        if queue[i] == b {
            return true;
        }
        i = i + 1;
    }
    false
}

/// One of the moves is of the entry of a vector.
pub open spec fn is_sent(moves: Seq<Move>, id: u64) -> bool {
    exists|m: int| 0 <= m < moves.len() && (#[trigger] moves[m]).id == id
}

/// One of the moves takes the entry of a vector to a posting.
pub open spec fn sends(moves: Seq<Move>, id: u64, to: u32) -> bool {
    exists|m: int| 0 <= m < moves.len() && (#[trigger] moves[m]).id == id && moves[m].to == to
}

fn find_move(moves: &Vec<Move>, id: u64) -> (r: Option<u32>)
    ensures
        match r {
            Some(to) => sends(moves@, id, to),
            None => forall|m: int| 0 <= m < moves@.len() ==> (#[trigger] moves@[m]).id != id,
        },
{
    let mut i: usize = 0;
    while i < moves.len()
        invariant
            i <= moves@.len(),
            forall|m: int| 0 <= m < i ==> (#[trigger] moves@[m]).id != id,
        decreases moves@.len() - i,
    {
        if moves[i].id == id {
            return Some(moves[i].to);
        }
        i = i + 1;
    }
    None
}

/// Entries on their way to other postings.
struct Parted {
    keep: Vec<Held>,
    moved: Vec<Held>,
    targets: Vec<u32>,
}

fn copy_held(h: &Held) -> (r: Held)
    ensures
        r.id == h.id,
        r.code@ == h.code@,
{
    let mut code: Vec<u8> = Vec::new();
    bytes::push_slice(&mut code, h.code.as_slice());
    assert(code@ =~= h.code@);
    Held { id: h.id, code }
}

/// The entry at `k` went where the moves say.
spec fn went(entries: Seq<Held>, moves: Seq<Move>, p: Parted, k: int) -> bool {
    if exists|m: int| 0 <= m < moves.len() && (#[trigger] moves[m]).id == entries[k].id {
        exists|l: int|
            0 <= l < p.moved@.len() && (#[trigger] p.moved@[l]).id == entries[k].id && sends(
                moves,
                entries[k].id,
                p.targets@[l],
            )
    } else {
        exists|l: int| 0 <= l < p.keep@.len() && (#[trigger] p.keep@[l]).id == entries[k].id
    }
}

/// The held entries are some of `entries`, in their order.
spec fn drawn(part: Seq<Held>, entries: Seq<Held>, upto: int) -> bool {
    &&& forall|l: int|
        0 <= l < part.len() ==> exists|k: int|
            0 <= k < upto && (#[trigger] entries[k]).id == (#[trigger] part[l]).id
                && entries[k].code@ == part[l].code@
    &&& forall|l: int, m: int|
        0 <= l < m < part.len() ==> (#[trigger] part[l]).id != (#[trigger] part[m]).id
}

#[verifier::rlimit(40)]
fn part_entries(entries: &Vec<Held>, moves: &Vec<Move>) -> (p: Parted)
    requires
        forall|i: int, j: int|
            0 <= i < j < entries@.len() ==> (#[trigger] entries@[i]).id != (
            #[trigger] entries@[j]).id,
    ensures
        p.keep@.len() + p.moved@.len() == entries@.len(),
        p.moved@.len() == p.targets@.len(),
        drawn(p.keep@, entries@, entries@.len() as int),
        drawn(p.moved@, entries@, entries@.len() as int),
        forall|k: int| 0 <= k < entries@.len() ==> #[trigger] went(entries@, moves@, p, k),
        forall|l: int|
            0 <= l < p.moved@.len() ==> sends(
                moves@,
                (#[trigger] p.moved@[l]).id,
                p.targets@[l],
            ),
        forall|l: int, m: int|
            0 <= l < p.keep@.len() && 0 <= m < p.moved@.len() ==> (#[trigger] p.keep@[l]).id != (
            #[trigger] p.moved@[m]).id,
{
    let mut p = Parted { keep: Vec::new(), moved: Vec::new(), targets: Vec::new() };
    let mut i: usize = 0;
    while i < entries.len()
        invariant
            i <= entries@.len(),
            forall|i: int, j: int|
                0 <= i < j < entries@.len() ==> (#[trigger] entries@[i]).id != (
                #[trigger] entries@[j]).id,
            p.keep@.len() + p.moved@.len() == i,
            p.moved@.len() == p.targets@.len(),
            drawn(p.keep@, entries@, i as int),
            drawn(p.moved@, entries@, i as int),
            forall|k: int| 0 <= k < i ==> #[trigger] went(entries@, moves@, p, k),
            forall|l: int|
                0 <= l < p.moved@.len() ==> sends(
                    moves@,
                    (#[trigger] p.moved@[l]).id,
                    p.targets@[l],
                ),
            forall|l: int, m: int|
                0 <= l < p.keep@.len() && 0 <= m < p.moved@.len() ==> (#[trigger] p.keep@[l]).id
                    != (#[trigger] p.moved@[m]).id,
        decreases entries@.len() - i,
    {
        let ghost before = p;
        let e = copy_held(&entries[i]);
        let ghost id = e.id;
        let target = find_move(moves, e.id);
        match target {
            Some(to) => {
                p.moved.push(e);
                p.targets.push(to);
            },
            None => {
                p.keep.push(e);
            },
        }
        proof {
            assert forall|l: int| 0 <= l < before.keep@.len() implies p.keep@[l]
                == #[trigger] before.keep@[l] by {}
            assert forall|l: int| 0 <= l < before.moved@.len() implies p.moved@[l]
                == #[trigger] before.moved@[l] && p.targets@[l] == before.targets@[l] by {}
            assert forall|l: int| 0 <= l < before.keep@.len() implies (
            #[trigger] before.keep@[l]).id != id by {
                let k = choose|k: int|
                    0 <= k < i && (#[trigger] entries@[k]).id == before.keep@[l].id
                        && entries@[k].code@ == before.keep@[l].code@;
                assert(entries@[k].id != entries@[i as int].id);
            }
            assert forall|l: int| 0 <= l < before.moved@.len() implies (
            #[trigger] before.moved@[l]).id != id by {
                let k = choose|k: int|
                    0 <= k < i && (#[trigger] entries@[k]).id == before.moved@[l].id
                        && entries@[k].code@ == before.moved@[l].code@;
                assert(entries@[k].id != entries@[i as int].id);
            }
            assert(entries@[i as int].id == id);
            assert(drawn(p.keep@, entries@, i + 1)) by {
                assert forall|l: int| 0 <= l < p.keep@.len() implies exists|k: int|
                    0 <= k < i + 1 && (#[trigger] entries@[k]).id == (#[trigger] p.keep@[l]).id
                        && entries@[k].code@ == p.keep@[l].code@ by {
                    if l < before.keep@.len() {
                        assert(p.keep@[l] == before.keep@[l]);
                    } else {
                        assert(entries@[i as int].id == p.keep@[l].id);
                    }
                }
            }
            assert(drawn(p.moved@, entries@, i + 1)) by {
                assert forall|l: int| 0 <= l < p.moved@.len() implies exists|k: int|
                    0 <= k < i + 1 && (#[trigger] entries@[k]).id == (#[trigger] p.moved@[l]).id
                        && entries@[k].code@ == p.moved@[l].code@ by {
                    if l < before.moved@.len() {
                        assert(p.moved@[l] == before.moved@[l]);
                    } else {
                        assert(entries@[i as int].id == p.moved@[l].id);
                    }
                }
            }
            assert forall|k: int| 0 <= k < i + 1 implies #[trigger] went(entries@, moves@, p, k) by {
                if k < i {
                    assert(went(entries@, moves@, before, k));
                    if exists|m: int|
                        0 <= m < moves@.len() && (#[trigger] moves@[m]).id == entries@[k].id {
                        let l = choose|l: int|
                            0 <= l < before.moved@.len() && (#[trigger] before.moved@[l]).id
                                == entries@[k].id && sends(
                                moves@,
                                entries@[k].id,
                                before.targets@[l],
                            );
                        assert(p.moved@[l].id == entries@[k].id);
                    } else {
                        let l = choose|l: int|
                            0 <= l < before.keep@.len() && (#[trigger] before.keep@[l]).id
                                == entries@[k].id;
                        assert(p.keep@[l].id == entries@[k].id);
                    }
                } else {
                    if target is Some {
                        assert(p.moved@[before.moved@.len() as int].id == entries@[k].id);
                    } else {
                        assert(p.keep@[before.keep@.len() as int].id == entries@[k].id);
                    }
                }
            }
            assert forall|l: int| 0 <= l < p.moved@.len() implies sends(
                moves@,
                (#[trigger] p.moved@[l]).id,
                p.targets@[l],
            ) by {
                if l < before.moved@.len() {
                    assert(p.moved@[l] == before.moved@[l]);
                }
            }
            assert forall|l: int, m: int|
                0 <= l < p.keep@.len() && 0 <= m < p.moved@.len() implies (#[trigger] p.keep@[l]).id
                != (#[trigger] p.moved@[m]).id by {
                if l < before.keep@.len() {
                    assert(p.keep@[l] == before.keep@[l]);
                }
                if m < before.moved@.len() {
                    assert(p.moved@[m] == before.moved@[m]);
                }
            }
        }
        i = i + 1;
    }
    p
}

impl<'a, D: Distance> SPFresh<'a, D> {
    /// Every block in the list exists.
    pub open spec fn are_blocks(&self, queue: Seq<u32>) -> bool {
        forall|i: int| 0 <= i < queue.len() ==> #[trigger] queue[i] < self.block_cid@.len()
    }

    /// The same vectors are in postings, but for deleted ones that may have gone; and
    /// nothing but live entries was added to a posting.
    pub open spec fn same_members(&self, before: &Self) -> bool {
        &&& forall|id: u64| #[trigger] self.is_placed(id) ==> before.is_placed(id)
        &&& forall|id: u64| #[trigger]
            before.is_placed(id) && !self.deleted@.contains(id) ==> self.is_placed(id)
    }

    /// Postings hold entries of deleted vectors only where they did before.
    pub open spec fn no_new_dead(&self, before: &Self) -> bool {
        forall|c: int, id: u64| #[trigger]
            self.holds_id(c, id) && self.deleted@.contains(id) ==> before.holds_id(c, id)
    }

    /// Postings that have grown too large are in the queue, or were too large before.
    pub open spec fn watched(&self, before: &Self, queue: Seq<u32>) -> bool {
        forall|c: int| #[trigger]
            self.is_posting(c) && self.posting(c).len() >= self.cfg.max_posting_size
                ==> queue.contains(c as u32) || (before.is_posting(c) && before.posting(c).len()
                >= self.cfg.max_posting_size)
    }

    /// Nothing that was in one list is missing in the other.
    pub open spec fn only_longer(queue: Seq<u32>, before: Seq<u32>) -> bool {
        forall|b: u32| #[trigger] before.contains(b) ==> queue.contains(b)
    }

    /// Whether codes depend on the posting.
    fn residual(&self) -> (r: bool)
        ensures
            r == (self.quantizer matches Some(QuantizerState::RaBitQ(_))),
    {
        match &self.quantizer {
            Some(QuantizerState::RaBitQ(_)) => true,
            _ => false,
        }
    }

    /// Moves an entry that is in no posting into one.
    fn settle(&mut self, t: u32, e: &Held, Ghost(from): Ghost<int>)
        requires
            old(self).wf(),
            old(self).is_posting(t as int),
            old(self).posting(t as int).len() < old(self).postings.capacity,
            e.id < old(self).next_id,
            !old(self).is_placed(e.id),
            e.code@ == old(self).code_for(
                old(self).raw_at(e.id as int),
                old(self).centroid(from),
            ) || (old(self).quantizer matches Some(QuantizerState::RaBitQ(_))),
            e.code@.len() == old(self).postings.code_size,
        ensures
            final(self).marks_writes(&*old(self)),
            final(self).wf(),
            final(self).same_but(&*old(self), t as int),
            final(self).gained(&*old(self), t as int, e.id),
            final(self).posting(t as int).len() == old(self).posting(t as int).len() + 1,
            forall|c: int| #[trigger]
                final(self).is_posting(c) && c != t ==> final(self).posting(c) == old(self).posting(
                    c,
                ),
            forall|c: int, id: u64| #[trigger]
                final(self).holds_id(c, id) <==> old(self).holds_id(c, id) || (c == t && id == e.id),
            old(self).write_seq < u64::MAX ==> final(self).write_seq > old(self).write_seq,
            old(self).write_seq <= final(self).write_seq,
    {
        let ghost before = *self;
        if self.residual() {
            let code = self.encode(self.raw(e.id), t);
            self.push(t, e.id, code.as_slice());
        } else {
            self.push(t, e.id, e.code.as_slice());
        }
        proof {
            assert forall|c: int| #[trigger] self.is_posting(c) && c != t implies self.posting(c)
                == before.posting(c) by {
                assert(self.postings.block(c) == before.postings.block(c));
            }
            let n = before.posting(t as int).len() as int;
            assert forall|c: int, id: u64| #[trigger]
                self.holds_id(c, id) <==> before.holds_id(c, id) || (c == t && id == e.id) by {
                if before.holds_id(c, id) {
                    let i = choose|i: int|
                        0 <= i < before.posting(c).len() && (#[trigger] before.posting(c)[i]).id
                            == id;
                    assert(self.posting(c)[i].id == id);
                }
                if c == t && id == e.id {
                    assert(self.posting(c)[n].id == id);
                }
                if self.holds_id(c, id) {
                    let i = choose|i: int|
                        0 <= i < self.posting(c).len() && (#[trigger] self.posting(c)[i]).id == id;
                    if c != t || i < n {
                        assert(before.posting(c)[i].id == id);
                    }
                }
            }
        }
    }
}

impl<'a, D: Distance> SPFresh<'a, D> {
    /// An entry went where its move says, or its target was full and it stayed.
    pub open spec fn arrived(&self, from: int, m: Move) -> bool {
        self.holds_id(m.to as int, m.id) || (self.holds_id(from, m.id) && self.posting(
            m.to as int,
        ).len() >= self.postings.capacity)
    }

    /// Moves entries of a posting to others. Entries of deleted vectors are dropped, and
    /// entries whose target is full stay.
    #[verifier::rlimit(40)]
    fn relocate(&mut self, from: u32, moves: &Vec<Move>, queue: &mut Vec<u32>)
        requires
            old(self).wf(),
            old(self).is_posting(from as int),
            old(self).are_moves(from as int, moves@),
            old(self).are_blocks(old(queue)@),
        ensures
            final(self).marks_writes(&*old(self)),
            final(self).wf(),
            final(self).same_routing(&*old(self)),
            final(self).same_members(&*old(self)),
            final(self).no_new_dead(&*old(self)),
            final(self).are_blocks(final(queue)@),
            final(self).watched(&*old(self), final(queue)@),
            Self::only_longer(final(queue)@, old(queue)@),
            forall|m: int| 0 <= m < moves@.len() ==> final(self).arrived(
                from as int,
                #[trigger] moves@[m],
            ),
            moves@.len() > 0 ==> final(self).has_moved(&*old(self), from as int, moves@),
            moves@.len() == 0 ==> *final(self) == *old(self) && final(queue)@ == old(queue)@,
            moves@.len() > 0 && old(self).write_seq < u64::MAX ==> final(self).write_seq > old(
                self,
            ).write_seq,
            old(self).write_seq <= final(self).write_seq,
    {
        if moves.len() == 0 {
            proof {
                self.lemma_unwritten(&*old(self));
            }
            return ;
        }
        let ghost pre = *self;
        let ghost first_queue = queue@;
        let ghost f = from as int;
        let entries = self.live_entries(from);
        let p = part_entries(&entries, moves);
        let ghost n = entries@.len() as int;
        proof {
            assert forall|l: int| 0 <= l < p.keep@.len() implies {
                &&& self.holds_id(f, (#[trigger] p.keep@[l]).id)
                &&& !self.deleted@.contains(p.keep@[l].id)
                &&& p.keep@[l].id < self.next_id
                &&& p.keep@[l].code@ == self.code_for(
                    self.raw_at(p.keep@[l].id as int),
                    self.centroid(f),
                )
                &&& p.keep@[l].code@.len() == self.postings.code_size
            } by {
                let k = choose|k: int|
                    0 <= k < n && (#[trigger] entries@[k]).id == p.keep@[l].id && entries@[k].code@
                        == p.keep@[l].code@;
                assert(self.holds_id(f, entries@[k].id));
            }
            assert forall|l: int| 0 <= l < p.moved@.len() implies {
                &&& self.holds_id(f, (#[trigger] p.moved@[l]).id)
                &&& !self.deleted@.contains(p.moved@[l].id)
                &&& p.moved@[l].id < self.next_id
                &&& p.moved@[l].code@ == self.code_for(
                    self.raw_at(p.moved@[l].id as int),
                    self.centroid(f),
                )
                &&& p.moved@[l].code@.len() == self.postings.code_size
                &&& self.is_posting(p.targets@[l] as int)
                &&& p.targets@[l] != from
            } by {
                let k = choose|k: int|
                    0 <= k < n && (#[trigger] entries@[k]).id == p.moved@[l].id && entries@[k].code@
                        == p.moved@[l].code@;
                assert(self.holds_id(f, entries@[k].id));
                assert(sends(moves@, p.moved@[l].id, p.targets@[l]));
            }
            assert forall|l: int, c: int|
                0 <= l < p.keep@.len() && c != from implies !self.holds_id(
                c,
                (#[trigger] p.keep@[l]).id,
            ) || !#[trigger] self.is_posting(c) by {
                let id = p.keep@[l].id;
                if self.holds_id(c, id) {
                    self.lemma_one_home(f, c, id);
                }
            }
        }
        self.rewrite(from, &p.keep);
        proof {
            let now = *self;
            assert forall|id: u64| #[trigger] now.holds_id(f, id) <==> exists|l: int|
                0 <= l < p.keep@.len() && (#[trigger] p.keep@[l]).id == id by {
                if now.holds_id(f, id) {
                    let l = choose|l: int|
                        0 <= l < now.posting(f).len() && (#[trigger] now.posting(f)[l]).id == id;
                    assert(p.keep@[l].id == id);
                }
                if exists|l: int| 0 <= l < p.keep@.len() && (#[trigger] p.keep@[l]).id == id {
                    let l = choose|l: int|
                        0 <= l < p.keep@.len() && (#[trigger] p.keep@[l]).id == id;
                    assert(now.posting(f)[l].id == id);
                }
            }
            assert forall|c: int, id: u64| c != f implies (#[trigger] now.holds_id(c, id)
                == pre.holds_id(c, id)) by {
                if pre.is_posting(c) {
                    assert(now.posting(c) == pre.posting(c));
                }
            }
            assert forall|l: int| 0 <= l < p.moved@.len() implies !now.is_placed(
                (#[trigger] p.moved@[l]).id,
            ) by {
                let id = p.moved@[l].id;
                if now.is_placed(id) {
                    let c = choose|c: int| #[trigger] now.holds_id(c, id);
                    if c == f {
                        let m = choose|m: int|
                            0 <= m < p.keep@.len() && (#[trigger] p.keep@[m]).id == id;
                        assert(p.keep@[m].id != p.moved@[l].id);
                    } else {
                        assert(pre.holds_id(c, id));
                        pre.lemma_one_home(f, c, id);
                    }
                }
            }
            assert forall|id: u64| #[trigger]
                pre.is_placed(id) && !pre.deleted@.contains(id) implies now.is_placed(id) || in_list(
                p.moved@,
                0,
                id,
            ) by {
                let c = choose|c: int| #[trigger] pre.holds_id(c, id);
                if c != f {
                    assert(now.holds_id(c, id));
                } else {
                    let k = choose|k: int| 0 <= k < entries@.len() && (#[trigger] entries@[k]).id == id;
                    assert(went(entries@, moves@, p, k));
                    if exists|m: int| 0 <= m < moves@.len() && (#[trigger] moves@[m]).id == id {
                        let l = choose|l: int|
                            0 <= l < p.moved@.len() && (#[trigger] p.moved@[l]).id
                                == entries@[k].id && sends(moves@, entries@[k].id, p.targets@[l]);
                        assert(in_list(p.moved@, 0, id));
                    } else {
                        let l = choose|l: int|
                            0 <= l < p.keep@.len() && (#[trigger] p.keep@[l]).id == entries@[k].id;
                        assert(now.holds_id(f, id));
                    }
                }
            }
            assert forall|c: int, id: u64| #[trigger] now.holds_id(c, id) implies pre.holds_id(
                c,
                id,
            ) by {
                if c == f {
                    let l = choose|l: int|
                        0 <= l < p.keep@.len() && (#[trigger] p.keep@[l]).id == id;
                    assert(pre.holds_id(f, p.keep@[l].id));
                }
            }
            assert forall|c: int, id: u64| #[trigger] now.holds_id(c, id) implies if is_sent(
                moves@,
                id,
            ) {
                c == f || sends(moves@, id, c as u32)
            } else {
                pre.holds_id(c, id) && (c == f ==> !pre.deleted@.contains(id))
            } by {
                if c != f && is_sent(moves@, id) {
                    let m = choose|m: int| 0 <= m < moves@.len() && (#[trigger] moves@[m]).id == id;
                    assert(pre.holds_id(f, moves@[m].id));
                    assert(pre.holds_id(c, id));
                    pre.lemma_one_home(f, c, id);
                }
                if c == f {
                    let l = choose|l: int|
                        0 <= l < p.keep@.len() && (#[trigger] p.keep@[l]).id == id;
                    assert(pre.holds_id(f, p.keep@[l].id));
                }
            }
            assert forall|c: int, id: u64| #[trigger]
                pre.holds_id(c, id) && !is_sent(moves@, id) && !(c == f && pre.deleted@.contains(
                    id,
                )) implies now.holds_id(c, id) by {
                if c == f {
                    let k = choose|k: int| 0 <= k < entries@.len() && (#[trigger] entries@[k]).id == id;
                    assert(went(entries@, moves@, p, k));
                    let l = choose|l: int|
                        0 <= l < p.keep@.len() && (#[trigger] p.keep@[l]).id == entries@[k].id;
                }
            }
            assert forall|c: int| #[trigger] now.is_posting(c) implies now.posting(c).len()
                <= pre.posting(c).len() by {
                assert(pre.is_posting(c));
                if c != f {
                    assert(now.posting(c) == pre.posting(c));
                }
            }
        }
        let mut j: usize = 0;
        while j < p.moved.len()
            invariant
                j <= p.moved@.len(),
                f == from,
                p.moved@.len() == p.targets@.len(),
                pre.wf(),
                pre.is_posting(f),
                pre.are_blocks(first_queue),
                self.wf(),
                self.same_routing(&pre),
                self.postings.same_shape(&pre.postings),
                self.posting(f).len() + (p.moved@.len() - j) <= n,
                n <= pre.posting(f).len() <= pre.postings.capacity,
                drawn(p.moved@, entries@, n),
                forall|l: int|
                    0 <= l < p.moved@.len() ==> {
                        &&& pre.holds_id(f, (#[trigger] p.moved@[l]).id)
                        &&& !pre.deleted@.contains(p.moved@[l].id)
                        &&& p.moved@[l].id < pre.next_id
                        &&& p.moved@[l].code@ == pre.code_for(
                            pre.raw_at(p.moved@[l].id as int),
                            pre.centroid(f),
                        )
                        &&& p.moved@[l].code@.len() == pre.postings.code_size
                        &&& pre.is_posting(p.targets@[l] as int)
                        &&& p.targets@[l] != from
                    },
                forall|l: int|
                    j <= l < p.moved@.len() ==> !self.is_placed((#[trigger] p.moved@[l]).id),
                forall|id: u64| #[trigger]
                    pre.is_placed(id) && !pre.deleted@.contains(id) ==> self.is_placed(id)
                        || in_list(p.moved@, j as int, id),
                forall|c: int, id: u64| #[trigger]
                    self.holds_id(c, id) ==> pre.is_placed(id) && (pre.holds_id(c, id)
                        || !pre.deleted@.contains(id)),
                self.are_blocks(queue@),
                Self::only_longer(queue@, first_queue),
                self.watched(&pre, queue@),
                self.marks_writes(&pre),
                forall|l: int|
                    0 <= l < p.moved@.len() ==> sends(
                        moves@,
                        (#[trigger] p.moved@[l]).id,
                        p.targets@[l],
                    ),
                forall|c: int, id: u64| #[trigger]
                    self.holds_id(c, id) ==> if is_sent(moves@, id) {
                        c == f || sends(moves@, id, c as u32)
                    } else {
                        pre.holds_id(c, id) && (c == f ==> !pre.deleted@.contains(id))
                    },
                forall|c: int, id: u64| #[trigger]
                    pre.holds_id(c, id) && !is_sent(moves@, id) && !(c == f
                        && pre.deleted@.contains(id)) ==> self.holds_id(c, id),
                forall|l: int|
                    0 <= l < j ==> self.arrived(
                        f,
                        Move { id: (#[trigger] p.moved@[l]).id, to: p.targets@[l] },
                    ),
                pre.write_seq < u64::MAX ==> self.write_seq > pre.write_seq,
                pre.write_seq <= self.write_seq,
            decreases p.moved@.len() - j,
        {
            let ghost st = *self;
            let ghost q0 = queue@;
            let e = &p.moved[j];
            let want: u32 = p.targets[j];
            assert(pre.is_posting(p.targets@[j as int] as int));
            assert(self.is_posting(want as int));
            assert(self.is_posting(f));
            let t: u32 = if self.is_live(want) && self.postings.len(want as usize) < 2
                * self.cfg.max_posting_size {
                want
            } else {
                if !has_block(queue, from) {
                    queue.insert(0, from);
                    proof {
                        assert forall|b: u32| #[trigger] q0.contains(b) implies queue@.contains(b) by {
                            let k = choose|k: int| 0 <= k < q0.len() && q0[k] == b;
                            assert(queue@[k + 1] == b);
                        }
                        assert forall|k: int| 0 <= k < queue@.len() implies #[trigger] queue@[k]
                            < self.block_cid@.len() by {
                            if k > 0 {
                                assert(queue@[k] == q0[k - 1]);
                            }
                        }
                    }
                }
                if self.is_live(want) {
                    let ghost q1 = queue@;
                    queue.push(want);
                    proof {
                        assert forall|b: u32| #[trigger] q1.contains(b) implies queue@.contains(b) by {
                            let k = choose|k: int| 0 <= k < q1.len() && q1[k] == b;
                            assert(queue@[k] == b);
                        }
                    }
                }
                from
            };
            let ghost q2 = queue@;
            assert(Self::only_longer(q2, q0));
            assert(!self.is_placed(p.moved@[j as int].id));
            self.settle(t, e, Ghost(f));
            if self.postings.len(t as usize) >= self.cfg.max_posting_size {
                queue.push(t);
            }
            proof {
                let id0 = e.id;
                self.lemma_written(&st, &pre);
                assert(sends(moves@, p.moved@[j as int].id, p.targets@[j as int]));
                assert(is_sent(moves@, id0));
                assert forall|c: int, id: u64| #[trigger] self.holds_id(c, id) implies if is_sent(
                    moves@,
                    id,
                ) {
                    c == f || sends(moves@, id, c as u32)
                } else {
                    pre.holds_id(c, id) && (c == f ==> !pre.deleted@.contains(id))
                } by {
                    if !st.holds_id(c, id) {
                        assert(id == id0 && c == t);
                    }
                }
                assert forall|c: int, id: u64| #[trigger]
                    pre.holds_id(c, id) && !is_sent(moves@, id) && !(c == f
                        && pre.deleted@.contains(id)) implies self.holds_id(c, id) by {
                    assert(st.holds_id(c, id));
                }
                assert forall|b: u32| #[trigger] q2.contains(b) implies queue@.contains(b) by {
                    let k = choose|k: int| 0 <= k < q2.len() && q2[k] == b;
                    assert(queue@[k] == b);
                }
                assert forall|b: u32| #[trigger] first_queue.contains(b) implies queue@.contains(b) by {
                    assert(q0.contains(b));
                    assert(q2.contains(b));
                }
                assert forall|l: int| j < l < p.moved@.len() implies !self.is_placed(
                    (#[trigger] p.moved@[l]).id,
                ) by {
                    let id = p.moved@[l].id;
                    assert(p.moved@[j as int].id != p.moved@[l].id);
                    if self.is_placed(id) {
                        let c = choose|c: int| #[trigger] self.holds_id(c, id);
                        assert(st.holds_id(c, id));
                        assert(st.is_placed(id));
                    }
                }
                assert forall|id: u64| #[trigger]
                    pre.is_placed(id) && !pre.deleted@.contains(id) implies self.is_placed(id)
                    || in_list(p.moved@, j + 1, id) by {
                    if st.is_placed(id) {
                        let c = choose|c: int| #[trigger] st.holds_id(c, id);
                        assert(self.holds_id(c, id));
                    } else {
                        assert(in_list(p.moved@, j as int, id));
                        let l = choose|l: int|
                            j <= l < p.moved@.len() && (#[trigger] p.moved@[l]).id == id;
                        if l == j {
                            assert(self.holds_id(t as int, id));
                        } else {
                            assert(in_list(p.moved@, j + 1, id));
                        }
                    }
                }
                assert forall|c: int, id: u64| #[trigger] self.holds_id(c, id) implies pre.is_placed(
                    id,
                ) && (pre.holds_id(c, id) || !pre.deleted@.contains(id)) by {
                    if !st.holds_id(c, id) {
                        assert(id == id0);
                        assert(pre.holds_id(f, p.moved@[j as int].id));
                    }
                }
                assert forall|c: int| #[trigger]
                    self.is_posting(c) && self.posting(c).len()
                        >= self.cfg.max_posting_size implies queue@.contains(c as u32) || (
                pre.is_posting(c) && pre.posting(c).len() >= self.cfg.max_posting_size) by {
                    if c != t {
                        assert(self.posting(c) == st.posting(c));
                        assert(st.is_posting(c));
                        if q0.contains(c as u32) {
                            assert(q2.contains(c as u32));
                        }
                    } else {
                        assert(queue@[q2.len() as int] == t);
                    }
                }
                assert forall|l: int| 0 <= l < j + 1 implies self.arrived(
                    f,
                    Move { id: (#[trigger] p.moved@[l]).id, to: p.targets@[l] },
                ) by {
                    let m = Move { id: p.moved@[l].id, to: p.targets@[l] };
                    assert(pre.is_posting(m.to as int));
                    assert(self.is_posting(m.to as int));
                    if l < j {
                        assert(st.arrived(f, m));
                        if st.holds_id(m.to as int, m.id) {
                            assert(self.holds_id(m.to as int, m.id));
                        } else {
                            assert(self.holds_id(f, m.id));
                            if m.to != t {
                                assert(self.posting(m.to as int) == st.posting(m.to as int));
                            }
                        }
                    } else {
                        assert(self.holds_id(t as int, m.id));
                        if t == from {
                            assert(self.posting(want as int) == st.posting(want as int));
                        }
                    }
                }
                assert(self.posting(f).len() + (p.moved@.len() - (j + 1)) <= n) by {
                    if t != from {
                        assert(self.posting(f) == st.posting(f));
                    }
                }
            }
            j = j + 1;
        }
        proof {
            assert forall|id: u64| #[trigger] self.is_placed(id) implies pre.is_placed(id) by {
                let c = choose|c: int| #[trigger] self.holds_id(c, id);
            }
            assert forall|m: int| 0 <= m < moves@.len() implies self.arrived(
                f,
                #[trigger] moves@[m],
            ) by {
                let id = moves@[m].id;
                assert(pre.holds_id(f, id));
                let k = choose|k: int| 0 <= k < entries@.len() && (#[trigger] entries@[k]).id == id;
                assert(went(entries@, moves@, p, k));
                let l = choose|l: int|
                    0 <= l < p.moved@.len() && (#[trigger] p.moved@[l]).id == entries@[k].id
                        && sends(moves@, entries@[k].id, p.targets@[l]);
                let x = choose|x: int|
                    0 <= x < moves@.len() && (#[trigger] moves@[x]).id == entries@[k].id
                        && moves@[x].to == p.targets@[l];
                if x < m {
                    assert(moves@[x].id != moves@[m].id);
                } else if m < x {
                    assert(moves@[m].id != moves@[x].id);
                }
                assert(self.arrived(f, Move { id: p.moved@[l].id, to: p.targets@[l] }));
            }
        }
    }

    proof fn lemma_one_home(&self, b: int, c: int, id: u64)
        requires
            self.wf(),
            self.holds_id(b, id),
            self.holds_id(c, id),
        ensures
            b == c,
    {
        let i = choose|i: int|
            0 <= i < self.posting(b).len() && (#[trigger] self.posting(b)[i]).id == id;
        let j = choose|j: int|
            0 <= j < self.posting(c).len() && (#[trigger] self.posting(c)[j]).id == id;
        assert(self.posting(b)[i].id == self.posting(c)[j].id);
    }
}

/// One of the entries from `from` on is of a vector.
spec fn in_list(entries: Seq<Held>, from: int, id: u64) -> bool {
    exists|l: int| from <= l < entries.len() && (#[trigger] entries[l]).id == id
}

/// Blocks in rising order, each once.
#[verifier::rlimit(40)]
fn sorted_once(v: &Vec<u32>) -> (r: Vec<u32>)
    ensures
        forall|b: u32| #[trigger] r@.contains(b) <==> v@.contains(b),
        forall|i: int, j: int| 0 <= i < j < r@.len() ==> #[trigger] r@[i] < #[trigger] r@[j],
{
    let mut r: Vec<u32> = Vec::new();
    let mut i: usize = 0;
    while i < v.len()
        invariant
            i <= v@.len(),
            forall|b: u32| #[trigger] r@.contains(b) <==> v@.take(i as int).contains(b),
            forall|i: int, j: int| 0 <= i < j < r@.len() ==> #[trigger] r@[i] < #[trigger] r@[j],
        decreases v@.len() - i,
    {
        let b: u32 = v[i];
        let mut at: usize = 0;
        while at < r.len() && r[at] < b
            invariant
                at <= r@.len(),
                forall|k: int| 0 <= k < at ==> #[trigger] r@[k] < b,
            decreases r@.len() - at,
        {
            at = at + 1;
        }
        let ghost before = r@;
        let fresh: bool = at == r.len() || r[at] != b;
        if fresh {
            r.insert(at, b);
        }
        proof {
            let was = v@.take(i as int);
            let now = v@.take(i + 1);
            assert(now =~= was.push(b));
            assert forall|x: u32| #[trigger] now.contains(x) <==> was.contains(x) || x == b by {
                if was.contains(x) {
                    let k = choose|k: int| 0 <= k < was.len() && was[k] == x;
                    assert(now[k] == x);
                }
                assert(now[i as int] == b);
            }
            assert forall|x: u32| #[trigger] r@.contains(x) <==> now.contains(x) by {
                if fresh {
                    assert(r@[at as int] == b);
                    if before.contains(x) {
                        let k = choose|k: int| 0 <= k < before.len() && before[k] == x;
                        if k < at {
                            assert(r@[k] == x);
                        } else {
                            assert(r@[k + 1] == x);
                        }
                    }
                    if r@.contains(x) && x != b {
                        let k = choose|k: int| 0 <= k < r@.len() && r@[k] == x;
                        if k < at {
                            assert(before[k] == x);
                        } else {
                            assert(before[k - 1] == x);
                        }
                    }
                } else {
                    assert(before[at as int] == b);
                    assert(before.contains(b));
                }
            }
            assert forall|x: int, y: int| 0 <= x < y < r@.len() implies #[trigger] r@[x]
                < #[trigger] r@[y] by {
                if fresh {
                    let px = if x < at {
                        x
                    } else {
                        x - 1
                    };
                    let py = if y < at {
                        y
                    } else {
                        y - 1
                    };
                    if at < before.len() {
                        assert(before[at as int] > b);
                    }
                    if x == at {
                        assert(r@[y] == before[py]);
                        if at < py {
                            assert(before[at as int] < before[py]);
                        }
                    } else if y == at {
                        assert(r@[x] == before[px]);
                    } else {
                        assert(r@[x] == before[px] && r@[y] == before[py]);
                    }
                }
            }
        }
        i = i + 1;
    }
    assert(v@.take(v@.len() as int) =~= v@);
    r
}

impl<'a, D: Distance> SPFresh<'a, D> {
    /// Postings that are too large are in the queue, or among `fresh`, or were too large
    /// before and are not `b`.
    pub open spec fn accounted(&self, before: &Self, queue: Seq<u32>, b: int, fresh: Seq<u32>) -> bool {
        forall|c: int| #[trigger]
            self.is_posting(c) && self.posting(c).len() >= self.cfg.max_posting_size
                ==> queue.contains(c as u32) || fresh.contains(c as u32) || (c != b
                && before.is_posting(c) && before.posting(c).len() >= self.cfg.max_posting_size)
    }

    /// Moves the entries that a list of postings holds nearer to one of `cands`.
    fn reassign(&mut self, list: &Vec<u32>, skip: &Vec<u32>, cands: &Vec<u32>, queue: &mut Vec<u32>)
        requires
            old(self).wf(),
            old(self).are_blocks(old(queue)@),
            old(self).are_blocks(list@),
            old(self).are_blocks(cands@),
        ensures
            final(self).marks_writes(&*old(self)),
            final(self).wf(),
            final(self).same_routing(&*old(self)),
            final(self).same_members(&*old(self)),
            final(self).no_new_dead(&*old(self)),
            final(self).are_blocks(final(queue)@),
            final(self).watched(&*old(self), final(queue)@),
            Self::only_longer(final(queue)@, old(queue)@),
            final(self).reassigned(&*old(self), list@, skip@, cands@, list@.len() as int),
            old(self).write_seq <= final(self).write_seq,
    {
        let ghost pre = *self;
        let ghost first_queue = queue@;
        let mut i: usize = 0;
        proof {
            self.lemma_unwritten(&pre);
        }
        while i < list.len()
            invariant
                i <= list@.len(),
                pre.wf(),
                pre.are_blocks(list@),
                pre.are_blocks(cands@),
                self.wf(),
                self.same_routing(&pre),
                self.same_members(&pre),
                self.no_new_dead(&pre),
                self.are_blocks(queue@),
                self.watched(&pre, queue@),
                Self::only_longer(queue@, first_queue),
                self.marks_writes(&pre),
                self.reassigned(&pre, list@, skip@, cands@, i as int),
                pre.write_seq <= self.write_seq,
            decreases list@.len() - i,
        {
            let ghost at = *self;
            let q: u32 = list[i];
            assert(list@[i as int] < pre.block_cid@.len());
            if !has_block(skip, q) && self.is_live(q) {
                let ghost st = *self;
                let ghost q0 = queue@;
                assert forall|k: int| 0 <= k < cands@.len() implies #[trigger] cands@[k]
                    < self.block_cid@.len() by {
                    assert(cands@[k] < pre.block_cid@.len());
                }
                let moves = self.local_moves(q, cands);
                self.relocate(q, &moves, queue);
                proof {
                    self.lemma_steps(&st, &pre, queue@, q0);
                    self.lemma_written(&st, &pre);
                    assert(self.relocated(&st, q as int, cands@));
                    assert forall|b: u32| #[trigger] first_queue.contains(b) implies queue@.contains(
                        b,
                    ) by {
                        assert(q0.contains(b));
                    }
                }
            }
            proof {
                assert(self.reassigned_one(&at, q, skip@, cands@));
                self.lemma_reassigned(&at, &pre, list@, skip@, cands@, i + 1);
            }
            i = i + 1;
        }
    }

    /// Two steps one after the other do together what each of them does.
    proof fn lemma_steps(&self, mid: &Self, first: &Self, queue: Seq<u32>, mid_queue: Seq<u32>)
        requires
            self.same_routing(mid),
            mid.same_routing(first),
            self.same_members(mid),
            mid.same_members(first),
            self.no_new_dead(mid),
            mid.no_new_dead(first),
            self.watched(mid, queue),
            mid.watched(first, mid_queue),
            Self::only_longer(queue, mid_queue),
        ensures
            self.same_routing(first),
            self.same_members(first),
            self.no_new_dead(first),
            self.watched(first, queue),
    {
        assert forall|id: u64| #[trigger] self.is_placed(id) implies first.is_placed(id) by {
            assert(mid.is_placed(id));
        }
        assert forall|id: u64| #[trigger]
            first.is_placed(id) && !self.deleted@.contains(id) implies self.is_placed(id) by {
            assert(mid.is_placed(id));
        }
        assert forall|c: int, id: u64| #[trigger]
            self.holds_id(c, id) && self.deleted@.contains(id) implies first.holds_id(c, id) by {
            assert(mid.holds_id(c, id));
        }
        assert forall|c: int| #[trigger]
            self.is_posting(c) && self.posting(c).len()
                >= self.cfg.max_posting_size implies queue.contains(c as u32) || (first.is_posting(c)
            && first.posting(c).len() >= self.cfg.max_posting_size) by {
            if !queue.contains(c as u32) {
                assert(mid.is_posting(c));
                if mid_queue.contains(c as u32) {
                    assert(queue.contains(c as u32));
                }
            }
        }
    }
}

impl<'a, D: Distance> SPFresh<'a, D> {
    /// The vectors of some entries.
    pub open spec fn are_vectors(&self, vs: Seq<Vec<u32>>, entries: Seq<Entry>) -> bool {
        &&& vs.len() == entries.len()
        &&& forall|i: int|
            0 <= i < vs.len() ==> (#[trigger] vs[i])@ == self.raw_at(entries[i].id as int)
    }

    /// Posting `b` was given up, and two empty postings were added, one after the other.
    #[verifier::opaque]
    pub open spec fn is_parted(
        &self,
        before: &Self,
        b: int,
        low: int,
        first: Seq<u32>,
        high: int,
        second: Seq<u32>,
    ) -> bool {
        exists|rest: Self, one: Self, two: Self|
            #![trigger one.opened_posting(&rest, low, first), two.opened_posting(&one, high, second)]
            rest.gave_up(before, b) && one.opened_posting(&rest, low, first)
                && two.opened_posting(&one, high, second) && self.same_routing(&two)
    }

    /// Posting `b` was cut in two: it was given up, and its live entries are in two new
    /// postings, each about the mean of its side.
    pub open spec fn cut(
        &self,
        before: &Self,
        b: int,
        vs: Seq<Vec<u32>>,
        low: int,
        high: int,
    ) -> bool {
        let (pair, side) = bisect::bisected(before.dist, vs);
        &&& self.is_parted(before, b, low, pair.low, high, pair.high)
        &&& self.same_store(before)
        &&& self.has_grown(before, 2)
        &&& before.are_vectors(vs, before.live_in(b))
        &&& low != high
        &&& self.is_posting(low)
        &&& self.is_posting(high)
        &&& self.centroid(low) == pair.low
        &&& self.centroid(high) == pair.high
        &&& forall|i: int|
            0 <= i < vs.len() ==> self.holds_id(
                if side[i] {
                    high
                } else {
                    low
                },
                (#[trigger] before.live_in(b)[i]).id,
            )
        &&& forall|c: int| #[trigger]
            self.is_posting(c) && c != low && c != high ==> before.is_posting(c) && c != b
                && self.centroid(c) == before.centroid(c) && self.posting(c) == before.posting(c)
        &&& forall|c: int| #[trigger]
            before.is_posting(c) && c != b ==> self.is_posting(c) && c != low && c != high
    }

    fn vectors_of(&self, entries: &Vec<Held>) -> (vs: Vec<Vec<u32>>)
        requires
            self.stored(),
            forall|i: int| 0 <= i < entries@.len() ==> (#[trigger] entries@[i]).id < self.next_id,
        ensures
            self.are_vectors(vs@, held(entries@)),
            kmeans::level(vs@, self.dim as int),
    {
        let mut vs: Vec<Vec<u32>> = Vec::new();
        let mut i: usize = 0;
        while i < entries.len()
            invariant
                i <= entries@.len(),
                self.stored(),
                forall|i: int|
                    0 <= i < entries@.len() ==> (#[trigger] entries@[i]).id < self.next_id,
                vs@.len() == i,
                kmeans::level(vs@, self.dim as int),
                forall|k: int|
                    0 <= k < i ==> (#[trigger] vs@[k])@ == self.raw_at(entries@[k].id as int),
            decreases entries@.len() - i,
        {
            let v = self.raw(entries[i].id);
            let mut copy: Vec<u32> = Vec::new();
            crate::pq::push_all(&mut copy, v);
            assert(copy@ =~= v@);
            vs.push(copy);
            i = i + 1;
        }
        vs
    }

    /// Cuts a posting in two.
    #[verifier::rlimit(40)]
    fn cut_in_two(&mut self, b: u32, entries: &Vec<Held>) -> (nb: Vec<u32>)
        requires
            old(self).wf(),
            old(self).is_posting(b as int),
            old(self).has_room(2),
            entries@.len() >= 2,
            entries@.len() <= old(self).postings.capacity,
            held(entries@) == old(self).live_in(b as int),
            forall|i: int|
                0 <= i < entries@.len() ==> old(self).holds_id(
                    b as int,
                    (#[trigger] entries@[i]).id,
                ) && !old(self).deleted@.contains(entries@[i].id) && entries@[i].id < old(
                    self,
                ).next_id,
            forall|i: int|
                0 <= i < entries@.len() ==> (#[trigger] entries@[i]).code@ == old(self).code_for(
                    old(self).raw_at(entries@[i].id as int),
                    old(self).centroid(b as int),
                ) && entries@[i].code@.len() == old(self).postings.code_size,
            forall|i: int, j: int|
                0 <= i < j < entries@.len() ==> (#[trigger] entries@[i]).id != (
                #[trigger] entries@[j]).id,
            forall|id: u64| #[trigger]
                old(self).holds_id(b as int, id) && !old(self).deleted@.contains(id)
                    ==> exists|i: int|
                    0 <= i < entries@.len() && (#[trigger] entries@[i]).id == id,
        ensures
            final(self).marks_writes(&*old(self)),
            final(self).wf(),
            final(self).same_store(&*old(self)),
            final(self).same_members(&*old(self)),
            final(self).no_new_dead(&*old(self)),
            nb@.len() == 2,
            exists|vs: Seq<Vec<u32>>| #[trigger]
                final(self).cut(&*old(self), b as int, vs, nb@[0] as int, nb@[1] as int),
            old(self).write_seq < u64::MAX ==> final(self).write_seq > old(self).write_seq,
            old(self).write_seq <= final(self).write_seq,
            old(self).block_cid@.len() <= final(self).block_cid@.len(),
    {
        let ghost pre = *self;
        let ghost bb = b as int;
        let vs = self.vectors_of(entries);
        assert(vs@[0]@.len() == self.dim);
        let (c1, c2, side) = bisect::kmeans2(&vs, self.dist);
        self.free_posting(b);
        let ghost st1 = *self;
        proof {
            st1.lemma_less_room(2, 1);
        }
        let low: u32 = self.new_posting(c1);
        let ghost st2 = *self;
        assert(self.has_room(1)) by {
            assert(st1.has_room(1int + 1));
        }
        let high: u32 = self.new_posting(c2);
        let ghost st3 = *self;
        proof {
            st2.lemma_written(&st1, &pre);
            st3.lemma_written(&st2, &pre);
            assert forall|c: int, id: u64| #[trigger] st1.holds_id(c, id) <==> pre.holds_id(c, id)
                && c != bb by {
                if pre.is_posting(c) && c != bb {
                    assert(st1.posting(c) == pre.posting(c));
                    assert(st1.is_posting(c));
                }
            }
            assert forall|c: int, id: u64| #[trigger] st3.holds_id(c, id) <==> st1.holds_id(c, id) by {
                if st1.is_posting(c) {
                    assert(st2.is_posting(c));
                    assert(st2.posting(c) == st1.posting(c));
                    assert(st3.posting(c) == st2.posting(c));
                    assert(st3.is_posting(c));
                } else if st3.is_posting(c) {
                    assert(c == low || c == high);
                    if c == low {
                        assert(st2.is_posting(low as int));
                        assert(st3.posting(c) == st2.posting(c));
                    }
                }
            }
            assert(st2.is_posting(low as int));
            assert(st3.is_posting(low as int) && st3.posting(low as int).len() == 0);
            assert forall|i: int| 0 <= i < entries@.len() implies !st3.is_placed(
                (#[trigger] entries@[i]).id,
            ) by {
                let id = entries@[i].id;
                if st3.is_placed(id) {
                    let c = choose|c: int| #[trigger] st3.holds_id(c, id);
                    assert(st1.holds_id(c, id));
                    assert(pre.holds_id(bb, id));
                    pre.lemma_one_home(bb, c, id);
                }
            }
            assert forall|id: u64| #[trigger]
                pre.is_placed(id) && !pre.deleted@.contains(id) implies st3.is_placed(id) || in_list(
                entries@,
                0,
                id,
            ) by {
                let c = choose|c: int| #[trigger] pre.holds_id(c, id);
                if c == bb {
                    let i = choose|i: int| 0 <= i < entries@.len() && (#[trigger] entries@[i]).id == id;
                    assert(in_list(entries@, 0, id));
                } else {
                    assert(st1.holds_id(c, id));
                    assert(st3.holds_id(c, id));
                }
            }
            assert forall|c: int| #[trigger]
                st3.is_posting(c) && c != low && c != high implies pre.is_posting(c) && c != bb
                && st3.centroid(c) == pre.centroid(c) && st3.posting(c) == pre.posting(c) by {
                assert(st2.is_posting(c));
                assert(st1.is_posting(c));
            }
            assert forall|c: int| #[trigger] pre.is_posting(c) && c != bb implies st3.is_posting(c)
                && c != low && c != high by {
                assert(st1.is_posting(c));
                assert(st2.is_posting(c));
            }
        }
        let mut i: usize = 0;
        while i < entries.len()
            invariant
                i <= entries@.len() <= pre.postings.capacity,
                bb == b,
                pre.wf(),
                self.wf(),
                st3.wf(),
                self.same_routing(&st3),
                st3.same_store(&pre),
                self.postings.same_shape(&st3.postings),
                st3.postings.capacity == pre.postings.capacity,
                st3.postings.code_size == pre.postings.code_size,
                low != high,
                st3.is_posting(low as int),
                st3.is_posting(high as int),
                side@.len() == entries@.len(),
                self.posting(low as int).len() <= i,
                self.posting(high as int).len() <= i,
                forall|c: int| #[trigger]
                    st3.is_posting(c) && c != low && c != high ==> self.posting(c) == st3.posting(c),
                forall|k: int|
                    0 <= k < entries@.len() ==> !pre.deleted@.contains((#[trigger] entries@[k]).id)
                        && entries@[k].id < pre.next_id && pre.holds_id(bb, entries@[k].id),
                forall|k: int|
                    0 <= k < entries@.len() ==> (#[trigger] entries@[k]).code@ == pre.code_for(
                        pre.raw_at(entries@[k].id as int),
                        pre.centroid(bb),
                    ) && entries@[k].code@.len() == pre.postings.code_size,
                forall|k: int, l: int|
                    0 <= k < l < entries@.len() ==> (#[trigger] entries@[k]).id != (
                    #[trigger] entries@[l]).id,
                forall|k: int|
                    i <= k < entries@.len() ==> !self.is_placed((#[trigger] entries@[k]).id),
                forall|id: u64| #[trigger]
                    pre.is_placed(id) && !pre.deleted@.contains(id) ==> self.is_placed(id)
                        || in_list(entries@, i as int, id),
                forall|c: int, id: u64| #[trigger]
                    self.holds_id(c, id) ==> pre.is_placed(id) && (pre.holds_id(c, id)
                        || !pre.deleted@.contains(id)),
                forall|k: int|
                    0 <= k < i ==> self.holds_id(
                        if side@[k] {
                            high as int
                        } else {
                            low as int
                        },
                        (#[trigger] entries@[k]).id,
                    ),
                self.marks_writes(&pre),
                pre.write_seq < u64::MAX ==> self.write_seq > pre.write_seq,
                pre.write_seq <= self.write_seq,
            decreases entries@.len() - i,
        {
            let ghost st = *self;
            let t: u32 = if side[i] {
                high
            } else {
                low
            };
            assert(self.is_posting(t as int));
            assert(!self.is_placed(entries@[i as int].id));
            assert(self.code_for(self.raw_at(entries@[i as int].id as int), self.centroid(bb))
                == pre.code_for(pre.raw_at(entries@[i as int].id as int), pre.centroid(bb)) || (
            self.quantizer matches Some(QuantizerState::RaBitQ(_))));
            self.settle(t, &entries[i], Ghost(bb));
            proof {
                let id0 = entries@[i as int].id;
                self.lemma_written(&st, &pre);
                assert forall|k: int| i < k < entries@.len() implies !self.is_placed(
                    (#[trigger] entries@[k]).id,
                ) by {
                    let id = entries@[k].id;
                    assert(entries@[i as int].id != entries@[k].id);
                    if self.is_placed(id) {
                        let c = choose|c: int| #[trigger] self.holds_id(c, id);
                        assert(st.holds_id(c, id));
                        assert(st.is_placed(id));
                    }
                }
                assert forall|id: u64| #[trigger]
                    pre.is_placed(id) && !pre.deleted@.contains(id) implies self.is_placed(id)
                    || in_list(entries@, i + 1, id) by {
                    if st.is_placed(id) {
                        let c = choose|c: int| #[trigger] st.holds_id(c, id);
                        assert(self.holds_id(c, id));
                    } else {
                        assert(in_list(entries@, i as int, id));
                        let l = choose|l: int|
                            i <= l < entries@.len() && (#[trigger] entries@[l]).id == id;
                        if l == i {
                            assert(self.holds_id(t as int, id));
                        } else {
                            assert(in_list(entries@, i + 1, id));
                        }
                    }
                }
                assert forall|c: int, id: u64| #[trigger] self.holds_id(c, id) implies pre.is_placed(
                    id,
                ) && (pre.holds_id(c, id) || !pre.deleted@.contains(id)) by {
                    if !st.holds_id(c, id) {
                        assert(id == id0);
                        assert(pre.holds_id(bb, id0));
                    }
                }
                assert forall|k: int| 0 <= k < i + 1 implies self.holds_id(
                    if side@[k] {
                        high as int
                    } else {
                        low as int
                    },
                    (#[trigger] entries@[k]).id,
                ) by {
                    if k < i {
                        assert(st.holds_id(
                            if side@[k] {
                                high as int
                            } else {
                                low as int
                            },
                            entries@[k].id,
                        ));
                    }
                }
                assert(self.is_posting(low as int) && self.is_posting(high as int));
                assert forall|c: int| #[trigger]
                    st3.is_posting(c) && c != low && c != high implies self.posting(c)
                    == st3.posting(c) by {
                    assert(self.is_posting(c));
                    assert(self.posting(c) == st.posting(c));
                }
            }
            i = i + 1;
        }
        let mut nb: Vec<u32> = Vec::new();
        nb.push(low);
        nb.push(high);
        proof {
            assert forall|id: u64| #[trigger] self.is_placed(id) implies pre.is_placed(id) by {
                let c = choose|c: int| #[trigger] self.holds_id(c, id);
            }
            let live = pre.live_in(bb);
            assert forall|k: int| 0 <= k < vs@.len() implies self.holds_id(
                if side@[k] {
                    high as int
                } else {
                    low as int
                },
                (#[trigger] live[k]).id,
            ) by {
                assert(held(entries@)[k] == live[k]);
                assert(entries@[k].id == live[k].id);
            }
            assert(st2.is_posting(low as int));
            assert(self.centroid(low as int) == st2.centroid(low as int));
            let (pair, _) = bisect::bisected(pre.dist, vs@);
            assert(self.is_parted(&pre, bb, low as int, pair.low, high as int, pair.high)) by {
                reveal(SPFresh::is_parted);
                assert(st2.opened_posting(&st1, low as int, pair.low));
                assert(st3.opened_posting(&st2, high as int, pair.high));
            }
            assert(self.cut(&pre, bb, vs@, nb@[0] as int, nb@[1] as int));
        }
        nb
    }
}

impl<'a, D: Distance> SPFresh<'a, D> {
    /// There is a posting.
    pub open spec fn has_postings(&self) -> bool {
        exists|b: int| #[trigger] self.is_posting(b)
    }

    /// An index over a centroid for each block can be laid out.
    pub open spec fn centroids_fit(&self) -> bool {
        index::slot(
            index::slot(
                index::VECTORS_OFFSET as int,
                self.block_cid@.len() as int,
                self.dim as int,
            ),
            self.block_cid@.len() as int,
            index::BUILD_MAX_DEGREE as int,
        ) <= usize::MAX
    }

    /// Why building the graph anew fails: it cannot be laid out, or the name of the metric
    /// does not fit in its header.
    pub open spec fn cannot_rebuild(&self, e: DiskAnnError) -> bool {
        ||| (e == DiskAnnError::IndexError(Fault::OutOfRoom) && !self.centroids_fit())
        ||| (e == DiskAnnError::IndexError(Fault::HeaderTooLarge) && 52
            + vstd::utf8::encode_utf8(self.dist.name_spec()).len() > index::VECTORS_OFFSET - 16)
    }

    /// No posting is too large.
    pub open spec fn is_small(&self) -> bool {
        forall|c: int| #[trigger]
            self.is_posting(c) ==> self.posting(c).len() < self.cfg.max_posting_size
    }

    /// Drops the entries of deleted vectors from a posting.
    fn purge(&mut self, b: u32, entries: &Vec<Held>)
        requires
            old(self).wf(),
            old(self).is_posting(b as int),
            entries@.len() <= old(self).posting(b as int).len(),
            forall|i: int|
                0 <= i < entries@.len() ==> old(self).holds_id(
                    b as int,
                    (#[trigger] entries@[i]).id,
                ) && !old(self).deleted@.contains(entries@[i].id) && entries@[i].id < old(
                    self,
                ).next_id,
            forall|i: int|
                0 <= i < entries@.len() ==> (#[trigger] entries@[i]).code@ == old(self).code_for(
                    old(self).raw_at(entries@[i].id as int),
                    old(self).centroid(b as int),
                ) && entries@[i].code@.len() == old(self).postings.code_size,
            forall|i: int, j: int|
                0 <= i < j < entries@.len() ==> (#[trigger] entries@[i]).id != (
                #[trigger] entries@[j]).id,
            forall|id: u64| #[trigger]
                old(self).holds_id(b as int, id) && !old(self).deleted@.contains(id)
                    ==> exists|i: int|
                    0 <= i < entries@.len() && (#[trigger] entries@[i]).id == id,
        ensures
            final(self).marks_writes(&*old(self)),
            final(self).wf(),
            final(self).same_but(&*old(self), b as int),
            final(self).posting(b as int) == held(entries@),
            forall|c: int| c != b && #[trigger] old(self).is_posting(c) ==> final(self).posting(c)
                == old(self).posting(c),
            final(self).same_members(&*old(self)),
            final(self).no_new_dead(&*old(self)),
            forall|id: u64| #[trigger]
                final(self).holds_id(b as int, id) ==> !final(self).deleted@.contains(id),
            old(self).write_seq < u64::MAX ==> final(self).write_seq > old(self).write_seq,
            old(self).write_seq <= final(self).write_seq,
    {
        let ghost pre = *self;
        let ghost bb = b as int;
        proof {
            assert forall|i: int, c: int|
                0 <= i < entries@.len() && c != b implies !pre.holds_id(
                c,
                (#[trigger] entries@[i]).id,
            ) || !#[trigger] pre.is_posting(c) by {
                let id = entries@[i].id;
                if pre.holds_id(c, id) {
                    pre.lemma_one_home(bb, c, id);
                }
            }
        }
        self.rewrite(b, entries);
        proof {
            assert forall|c: int, id: u64| #[trigger] self.holds_id(c, id) implies pre.holds_id(
                c,
                id,
            ) && (c == bb ==> !pre.deleted@.contains(id)) by {
                assert(pre.is_posting(c));
                let i = choose|i: int|
                    0 <= i < self.posting(c).len() && (#[trigger] self.posting(c)[i]).id == id;
                if c == bb {
                    assert(held(entries@)[i].id == id);
                    assert(entries@[i].id == id);
                } else {
                    assert(pre.posting(c)[i].id == id);
                }
            }
            assert forall|id: u64| #[trigger] self.is_placed(id) implies pre.is_placed(id) by {
                let c = choose|c: int| #[trigger] self.holds_id(c, id);
                assert(pre.holds_id(c, id));
            }
            assert forall|id: u64| #[trigger]
                pre.is_placed(id) && !self.deleted@.contains(id) implies self.is_placed(id) by {
                let c = choose|c: int| #[trigger] pre.holds_id(c, id);
                if c == bb {
                    let i = choose|i: int| 0 <= i < entries@.len() && (#[trigger] entries@[i]).id == id;
                    assert(self.posting(bb)[i].id == id);
                    assert(self.holds_id(bb, id));
                } else {
                    assert(self.posting(c) == pre.posting(c));
                    assert(self.holds_id(c, id));
                }
            }
        }
    }

    /// Splits a posting that is too large, and moves the entries around it to where they
    /// are nearest. A posting with fewer than two live entries is only purged.
    #[verifier::rlimit(40)]
    fn split(&mut self, b: u32, queue: &mut Vec<u32>)
        requires
            old(self).wf(),
            old(self).is_posting(b as int),
            old(self).has_room(2),
            old(self).are_blocks(old(queue)@),
        ensures
            final(self).marks_writes(&*old(self)),
            final(self).wf(),
            final(self).same_store(&*old(self)),
            final(self).same_members(&*old(self)),
            final(self).no_new_dead(&*old(self)),
            final(self).are_blocks(final(queue)@),
            Self::only_longer(final(queue)@, old(queue)@),
            final(self).accounted(&*old(self), final(queue)@, b as int, Seq::empty()),
            final(self).has_postings(),
            final(self).was_split(&*old(self), b as int),
            old(self).write_seq < u64::MAX ==> final(self).write_seq > old(self).write_seq,
            old(self).write_seq <= final(self).write_seq,
            old(self).block_cid@.len() <= final(self).block_cid@.len(),
    {
        let ghost pre = *self;
        let ghost bb = b as int;
        let ghost first_queue = queue@;
        let entries = self.live_entries(b);
        assert(held(entries@).len() == entries@.len());
        if entries.len() < 2 {
            self.purge(b, &entries);
            proof {
                assert(self.is_posting(bb));
                assert forall|c: int| #[trigger]
                    self.is_posting(c) && self.posting(c).len()
                        >= self.cfg.max_posting_size implies c != bb && pre.is_posting(c)
                    && pre.posting(c).len() >= self.cfg.max_posting_size by {
                    assert(pre.is_posting(c));
                }
            }
            return ;
        }
        let nb = self.cut_in_two(b, &entries);
        let ghost cut = *self;
        let ghost vs = choose|vs: Seq<Vec<u32>>| #[trigger]
            cut.cut(&pre, bb, vs, nb@[0] as int, nb@[1] as int);
        assert(cut.is_posting(nb@[0] as int) && cut.is_posting(nb@[1] as int));
        let mut around = self.neighbourhood(nb[0]);
        let ghost low_around = around@;
        let mut others = self.neighbourhood(nb[1]);
        let ghost high_around = others@;
        around.append(&mut others);
        let ghost both = around@;
        let around = sorted_once(&around);
        proof {
            assert(both =~= low_around + high_around);
            assert forall|x: u32| #[trigger] around@.contains(x) <==> low_around.contains(x)
                || high_around.contains(x) by {
                lemma_in_either(low_around, high_around, x);
            }
            assert(cut.is_around(nb@[0] as int, low_around));
            assert(cut.is_around(nb@[1] as int, high_around));
            assert(cut.is_around_both(nb@[0] as int, nb@[1] as int, around@));
        }
        proof {
            assert forall|i: int| 0 <= i < around@.len() implies #[trigger] around@[i]
                < self.block_cid@.len() by {
                assert(around@.contains(around@[i]));
            }
            assert(self.are_blocks(queue@));
            assert forall|i: int| 0 <= i < nb@.len() implies #[trigger] nb@[i]
                < self.block_cid@.len() by {}
        }
        let none: Vec<u32> = Vec::new();
        self.reassign(&nb, &none, &around, queue);
        let ghost st1 = *self;
        let ghost q1 = queue@;
        proof {
            assert forall|i: int| 0 <= i < around@.len() implies #[trigger] around@[i]
                < self.block_cid@.len() by {}
        }
        self.reassign(&around, &nb, &nb, queue);
        let ghost st2 = *self;
        let ghost q2 = queue@;
        proof {
            st2.lemma_steps(&st1, &cut, q2, q1);
            lemma_longer(q2, q1, first_queue);
            st1.lemma_written(&cut, &pre);
            st2.lemma_written(&st1, &pre);
            assert(none@ =~= Seq::<u32>::empty());
            assert(st2.is_split(&pre, bb, &cut, &st1, vs, nb@, around@));
            assert(st2.was_split(&pre, bb));
        }
        let mut i: usize = 0;
        while i < nb.len()
            invariant
                i <= nb@.len(),
                *self == st2,
                self.wf(),
                self.are_blocks(nb@),
                self.are_blocks(queue@),
                Self::only_longer(queue@, q2),
                forall|k: int|
                    0 <= k < i && self.posting((#[trigger] nb@[k]) as int).len()
                        >= self.cfg.max_posting_size ==> queue@.contains(nb@[k]),
            decreases nb@.len() - i,
        {
            let ghost q = queue@;
            let p: u32 = nb[i];
            assert(nb@[i as int] < self.block_cid@.len());
            if self.postings.len(p as usize) >= self.cfg.max_posting_size {
                queue.push(p);
                proof {
                    assert forall|x: u32| #[trigger] q.contains(x) implies queue@.contains(x) by {
                        let k = choose|k: int| 0 <= k < q.len() && q[k] == x;
                        assert(queue@[k] == x);
                    }
                    assert(queue@[q.len() as int] == p);
                    assert forall|x: u32| #[trigger] q2.contains(x) implies queue@.contains(x) by {
                        assert(q.contains(x));
                    }
                    assert forall|k: int|
                        0 <= k < i + 1 && self.posting((#[trigger] nb@[k]) as int).len()
                            >= self.cfg.max_posting_size implies queue@.contains(nb@[k]) by {
                        if k < i {
                            assert(q.contains(nb@[k]));
                        }
                    }
                }
            }
            i = i + 1;
        }
        proof {
            lemma_longer(queue@, q2, first_queue);
            assert forall|id: u64| #[trigger] self.is_placed(id) implies pre.is_placed(id) by {
                assert(cut.is_placed(id));
            }
            assert forall|id: u64| #[trigger]
                pre.is_placed(id) && !self.deleted@.contains(id) implies self.is_placed(id) by {
                assert(cut.is_placed(id));
            }
            assert forall|c: int, id: u64| #[trigger]
                self.holds_id(c, id) && self.deleted@.contains(id) implies pre.holds_id(c, id) by {
                assert(cut.holds_id(c, id));
            }
            assert forall|c: int| #[trigger]
                self.is_posting(c) && self.posting(c).len()
                    >= self.cfg.max_posting_size implies queue@.contains(c as u32) || (c != bb
                && pre.is_posting(c) && pre.posting(c).len() >= self.cfg.max_posting_size) by {
                if c == nb@[0] {
                    assert(queue@.contains(nb@[0]));
                } else if c == nb@[1] {
                    assert(queue@.contains(nb@[1]));
                } else if q2.contains(c as u32) {
                    assert(queue@.contains(c as u32));
                } else {
                    assert(cut.is_posting(c));
                }
            }
            assert(self.is_posting(nb@[0] as int));
        }
    }
}

proof fn lemma_in_either(a: Seq<u32>, b: Seq<u32>, x: u32)
    ensures
        (a + b).contains(x) <==> a.contains(x) || b.contains(x),
{
    let both = a + b;
    if a.contains(x) {
        let k = choose|k: int| 0 <= k < a.len() && a[k] == x;
        assert(both[k] == x);
    }
    if b.contains(x) {
        let k = choose|k: int| 0 <= k < b.len() && b[k] == x;
        assert(both[a.len() + k] == x);
    }
    if both.contains(x) {
        let k = choose|k: int| 0 <= k < both.len() && both[k] == x;
        if k < a.len() {
            assert(a[k] == x);
        } else {
            assert(b[k - a.len()] == x);
        }
    }
}

proof fn lemma_longer(c: Seq<u32>, b: Seq<u32>, a: Seq<u32>)
    requires
        forall|x: u32| #[trigger] b.contains(x) ==> c.contains(x),
        forall|x: u32| #[trigger] a.contains(x) ==> b.contains(x),
    ensures
        forall|x: u32| #[trigger] a.contains(x) ==> c.contains(x),
{
    assert forall|x: u32| #[trigger] a.contains(x) implies c.contains(x) by {
        assert(b.contains(x));
    }
}

impl<'a, D: Distance> SPFresh<'a, D> {
    /// Splits postings and moves entries until no posting is too large.
    #[verifier::rlimit(40)]
    fn drain(&mut self, queue: &mut Vec<u32>) -> (r: Result<(), DiskAnnError>)
        requires
            old(self).wf(),
            old(self).are_blocks(old(queue)@),
            forall|c: int| #[trigger]
                old(self).is_posting(c) && old(self).posting(c).len() >= old(
                    self,
                ).cfg.max_posting_size ==> old(queue)@.contains(c as u32),
        ensures
            final(self).marks_writes(&*old(self)),
            final(self).wf(),
            final(self).same_store(&*old(self)),
            final(self).tidied(&*old(self)),
            final(self).same_members(&*old(self)),
            final(self).no_new_dead(&*old(self)),
            old(self).has_postings() ==> final(self).has_postings(),
            old(self).block_cid@.len() <= final(self).block_cid@.len(),
            match r {
                Ok(_) => final(self).is_small() && final(queue)@.len() == 0,
                Err(e) => e == DiskAnnError::IndexError(Fault::OutOfRoom) && final(self).ran_out(
                    &*old(self),
                ),
            },
    {
        let ghost pre = *self;
        proof {
            self.lemma_unwritten(&pre);
            assert(self.tidied_in(&pre, 0));
        }
        let mut rounds: u64 = 0;
        while queue.len() > 0
            invariant
                pre == *old(self),
                pre.wf(),
                self.wf(),
                self.same_store(&pre),
                self.marks_writes(&pre),
                self.tidied_in(&pre, rounds as nat),
                self.same_members(&pre),
                self.no_new_dead(&pre),
                pre.has_postings() ==> self.has_postings(),
                pre.block_cid@.len() <= self.block_cid@.len(),
                self.are_blocks(queue@),
                forall|c: int| #[trigger]
                    self.is_posting(c) && self.posting(c).len() >= self.cfg.max_posting_size
                        ==> queue@.contains(c as u32),
            decreases u64::MAX - rounds, queue@.len(),
        {
            let ghost st = *self;
            let ghost q0 = queue@;
            if rounds == u64::MAX {
                return Err(DiskAnnError::IndexError(Fault::OutOfRoom));
            }
            let b: u32 = match queue.pop() {
                Some(b) => b,
                None => 0,
            };
            let ghost q1 = queue@;
            proof {
                assert(b == q0.last());
                assert forall|x: u32| #[trigger] q0.contains(x) implies q1.contains(x) || x == b by {
                    let k = choose|k: int| 0 <= k < q0.len() && q0[k] == x;
                    if k < q1.len() {
                        assert(q1[k] == x);
                    }
                }
            }
            if self.is_live(b) {
                if self.postings.len(b as usize) >= self.cfg.max_posting_size {
                    if !self.check_room(2) {
                        return Err(DiskAnnError::IndexError(Fault::OutOfRoom));
                    }
                    self.split(b, queue);
                    rounds = rounds + 1;
                    proof {
                        assert(self.was_split(&st, b as int));
                        self.lemma_tidier(&st, &pre, (rounds - 1) as nat);
                        assert forall|c: int| #[trigger]
                            self.is_posting(c) && self.posting(c).len()
                                >= self.cfg.max_posting_size implies queue@.contains(c as u32) by {
                            if !queue@.contains(c as u32) {
                                assert(st.is_posting(c));
                                assert(q0.contains(c as u32));
                                assert(q1.contains(c as u32));
                            }
                        }
                    }
                } else {
                    let around = self.neighbourhood(b);
                    proof {
                        assert forall|i: int| 0 <= i < around@.len() implies #[trigger] around@[i]
                            < self.block_cid@.len() by {
                            assert(self.is_posting(around@[i] as int));
                        }
                    }
                    let moves = self.local_moves(b, &around);
                    self.relocate(b, &moves, queue);
                    if moves.len() > 0 {
                        rounds = rounds + 1;
                    }
                    proof {
                        assert(st.is_around(b as int, around@));
                        assert(self.relocated(&st, b as int, around@));
                        if moves@.len() > 0 {
                            self.lemma_tidier(&st, &pre, (rounds - 1) as nat);
                        }
                        assert forall|c: int| #[trigger]
                            self.is_posting(c) && self.posting(c).len()
                                >= self.cfg.max_posting_size implies queue@.contains(c as u32) by {
                            if !queue@.contains(c as u32) {
                                assert(st.is_posting(c));
                                assert(q0.contains(c as u32));
                                assert(q1.contains(c as u32));
                            }
                        }
                        if st.has_postings() {
                            let x = choose|x: int| #[trigger] st.is_posting(x);
                            assert(self.is_posting(x));
                        }
                    }
                }
                proof {
                    self.lemma_members(&st, &pre);
                    self.lemma_written(&st, &pre);
                }
            } else {
                proof {
                    assert forall|c: int| #[trigger]
                        self.is_posting(c) && self.posting(c).len()
                            >= self.cfg.max_posting_size implies queue@.contains(c as u32) by {
                        assert(q0.contains(c as u32));
                    }
                }
            }
        }
        proof {
            assert forall|c: int| #[trigger] self.is_posting(c) implies self.posting(c).len()
                < self.cfg.max_posting_size by {
                if self.posting(c).len() >= self.cfg.max_posting_size {
                    assert(queue@.contains(c as u32));
                }
            }
        }
        Ok(())
    }

    proof fn lemma_members(&self, mid: &Self, first: &Self)
        requires
            self.deleted == mid.deleted,
            mid.deleted == first.deleted,
            self.same_members(mid),
            mid.same_members(first),
            self.no_new_dead(mid),
            mid.no_new_dead(first),
        ensures
            self.same_members(first),
            self.no_new_dead(first),
    {
        assert forall|id: u64| #[trigger] self.is_placed(id) implies first.is_placed(id) by {
            assert(mid.is_placed(id));
        }
        assert forall|id: u64| #[trigger]
            first.is_placed(id) && !self.deleted@.contains(id) implies self.is_placed(id) by {
            assert(mid.is_placed(id));
        }
        assert forall|c: int, id: u64| #[trigger]
            self.holds_id(c, id) && self.deleted@.contains(id) implies first.holds_id(c, id) by {
            assert(mid.holds_id(c, id));
        }
    }

    /// The first `upto` blocks that hold postings.
    pub open spec fn postings_upto(&self, upto: int) -> Seq<u32>
        decreases upto,
    {
        if upto <= 0 {
            Seq::empty()
        } else if self.is_posting(upto - 1) {
            self.postings_upto(upto - 1).push((upto - 1) as u32)
        } else {
            self.postings_upto(upto - 1)
        }
    }

    proof fn lemma_postings(&self, upto: int)
        requires
            0 <= upto <= self.block_cid@.len() < u32::MAX,
        ensures
            self.postings_upto(upto).len() <= upto,
            forall|i: int|
                0 <= i < self.postings_upto(upto).len() ==> #[trigger] self.postings_upto(upto)[i]
                    < upto && self.is_posting(self.postings_upto(upto)[i] as int),
            forall|b: int|
                0 <= b < upto && #[trigger] self.is_posting(b) ==> self.postings_upto(
                    upto,
                ).contains(b as u32),
            forall|i: int, j: int|
                0 <= i < j < self.postings_upto(upto).len() ==> #[trigger] self.postings_upto(
                    upto,
                )[i] < #[trigger] self.postings_upto(upto)[j],
        decreases upto,
    {
        if upto > 0 {
            self.lemma_postings(upto - 1);
            let before = self.postings_upto(upto - 1);
            let now = self.postings_upto(upto);
            assert forall|b: int| 0 <= b < upto && #[trigger] self.is_posting(b) implies now.contains(
                b as u32,
            ) by {
                if b == upto - 1 {
                    assert(now[before.len() as int] == b as u32);
                } else {
                    assert(before.contains(b as u32));
                    let i = choose|i: int| 0 <= i < before.len() && before[i] == b as u32;
                    assert(now[i] == b as u32);
                }
            }
        }
    }
}

impl<'a, D: Distance> SPFresh<'a, D> {
    /// What is not about the graph is the same.
    pub open spec fn same_entries(&self, other: &Self) -> bool {
        &&& self.same_store(other)
        &&& self.postings == other.postings
        &&& self.block_centroid == other.block_centroid
        &&& self.free == other.free
        &&& self.created == other.created
        &&& self.dirty == other.dirty
        &&& self.write_seq == other.write_seq
        &&& self.block_cid@.len() == other.block_cid@.len()
        &&& forall|b: int| #[trigger] self.is_posting(b) == other.is_posting(b)
    }

    /// The graph holds just the centroids, in the order of their blocks.
    pub open spec fn is_compact(&self) -> bool {
        let live = self.postings_upto(self.block_cid@.len() as int);
        &&& self.graph.total() == live.len()
        &&& self.graph.delta.vectors@.len() == 0
        &&& self.graph.tombstones@ == Set::<u64>::empty()
        &&& forall|i: int| 0 <= i < live.len() ==> self.block_cid@[(#[trigger] live[i]) as int] == i
        &&& if live.len() == 0 {
            self.graph.base is None
        } else {
            exists|all: Vec<Vec<u32>>, b: DiskANN<'a, D>| #[trigger]
                self.is_routed_by(live, all, b)
        }
    }

    /// The graph is `b`, which was built over the centroids `all` of the `live` blocks.
    pub open spec fn is_routed_by(&self, live: Seq<u32>, all: Vec<Vec<u32>>, b: DiskANN<'a, D>) -> bool {
        &&& all@.len() == live.len()
        &&& forall|i: int|
            0 <= i < live.len() ==> (#[trigger] all@[i])@ == self.centroid(live[i] as int)
        &&& DiskANN::built(
            &all,
            index::BUILD_MAX_DEGREE as int,
            index::BUILD_BEAM_WIDTH as int,
            index::DISKANN_DEFAULT_ALPHA,
            self.dist,
            Ok(b),
        )
        &&& self.graph.base == Some(b)
    }

    fn live_blocks(&self) -> (r: Vec<u32>)
        requires
            self.shape(),
        ensures
            r@ == self.postings_upto(self.block_cid@.len() as int),
    {
        let total: usize = self.block_cid.len();
        let mut r: Vec<u32> = Vec::new();
        let mut b: usize = 0;
        while b < total
            invariant
                b <= total == self.block_cid@.len() < u32::MAX,
                r@ == self.postings_upto(b as int),
            decreases total - b,
        {
            if self.is_live(b as u32) {
                r.push(b as u32);
            }
            b = b + 1;
        }
        r
    }

    /// Whether an index over a centroid for each block can be laid out.
    fn check_centroids(&self) -> (r: bool)
        requires
            self.shape(),
        ensures
            r == self.centroids_fit(),
    {
        let n: usize = self.block_cid.len();
        proof {
            let dim = self.dim as int;
            assert(0 <= n * dim && 0 <= n * 64) by (nonlinear_arith)
                requires
                    0 <= n,
                    0 <= dim,
            ;
        }
        let vectors: usize = match n.checked_mul(self.dim) {
            Some(words) => match words.checked_mul(4) {
                Some(size) => size,
                None => {
                    return false;
                },
            },
            None => {
                return false;
            },
        };
        let rows: usize = match n.checked_mul(index::BUILD_MAX_DEGREE) {
            Some(words) => match words.checked_mul(4) {
                Some(size) => size,
                None => {
                    return false;
                },
            },
            None => {
                return false;
            },
        };
        match vectors.checked_add(rows) {
            Some(size) => size.checked_add(index::VECTORS_OFFSET as usize).is_some(),
            None => false,
        }
    }

    /// Builds the graph anew from the centroids.
    #[verifier::rlimit(40)]
    pub fn compact(&mut self) -> (r: Result<(), DiskAnnError>)
        requires
            old(self).wf(),
        ensures
            final(self).wf(),
            final(self).same_entries(&*old(self)),
            match r {
                Ok(_) => final(self).is_compact(),
                Err(e) => old(self).cannot_rebuild(e) && *final(self) == *old(self),
            },
    {
        broadcast use vstd::std_specs::hash::group_hash_axioms;

        let ghost pre = *self;
        let live = self.live_blocks();
        proof {
            self.lemma_postings(self.block_cid@.len() as int);
        }
        if !self.check_centroids() {
            return Err(DiskAnnError::IndexError(Fault::OutOfRoom));
        }
        let mut cents: Vec<Vec<u32>> = Vec::new();
        let mut i: usize = 0;
        while i < live.len()
            invariant
                i <= live@.len(),
                *self == pre,
                pre.wf(),
                forall|k: int|
                    0 <= k < live@.len() ==> pre.is_posting((#[trigger] live@[k]) as int),
                cents@.len() == i,
                kmeans::level(cents@, self.dim as int),
                forall|k: int|
                    0 <= k < i ==> (#[trigger] cents@[k])@ == pre.centroid(live@[k] as int),
            decreases live@.len() - i,
        {
            let b: usize = live[i] as usize;
            assert(pre.is_posting(live@[i as int] as int));
            let c = self.block_centroid[b].clone();
            assert(c@ =~= self.block_centroid@[b as int]@);
            cents.push(c);
            i = i + 1;
        }
        let config = IncrementalConfig::default();
        let dist = self.dist;
        let graph = if cents.len() == 0 {
            IncrementalDiskANN::new_empty(self.dim, dist, config)
        } else {
            proof {
                let n = cents@.len() as int;
                let t = self.block_cid@.len() as int;
                let dim = self.dim as int;
                assert(cents@[0]@.len() == dim);
                assert(n * dim <= t * dim && n * 32 <= t * 32) by (nonlinear_arith)
                    requires
                        0 <= n <= t,
                        0 <= dim,
                ;
            }
            let built = IncrementalDiskANN::build_with_config(&cents, dist, config);
            let ghost kept = built;
            match built {
                Ok(graph) => {
                    proof {
                        lemma_built_graph(&cents, dist, config, kept);
                    }
                    graph
                },
                Err(e) => {
                    proof {
                        lemma_built_graph(&cents, dist, config, kept);
                    }
                    return Err(e);
                },
            }
        };
        self.graph = graph;
        self.cid_block.clear();
        let ghost n = live@.len() as int;
        let mut i: usize = 0;
        while i < live.len()
            invariant
                i <= live@.len() == n,
                pre.wf(),
                live@ == pre.postings_upto(pre.block_cid@.len() as int),
                n <= pre.block_cid@.len() < u32::MAX,
                forall|k: int|
                    0 <= k < live@.len() ==> pre.is_posting((#[trigger] live@[k]) as int),
                forall|k: int, l: int|
                    0 <= k < l < live@.len() ==> #[trigger] live@[k] < #[trigger] live@[l],
                self.graph == graph,
                self.same_store(&pre),
                self.postings == pre.postings,
                self.block_centroid == pre.block_centroid,
                self.free == pre.free,
                self.created == pre.created,
                self.dirty == pre.dirty,
                self.write_seq == pre.write_seq,
                self.block_cid@.len() == pre.block_cid@.len(),
                forall|b: int|
                    0 <= b < self.block_cid@.len() && !pre.is_posting(b)
                        ==> #[trigger] self.block_cid@[b] == FREE,
                forall|b: int|
                    0 <= b < self.block_cid@.len() && pre.is_posting(b)
                        ==> #[trigger] self.block_cid@[b] != FREE,
                forall|k: int| 0 <= k < i ==> self.block_cid@[(#[trigger] live@[k]) as int] == k,
                forall|cid: u64| #[trigger] self.cid_block@.contains_key(cid) <==> cid < i,
                forall|k: int| 0 <= k < i ==> self.cid_block@[k as u64] == #[trigger] live@[k],
            decreases live@.len() - i,
        {
            broadcast use vstd::std_specs::hash::group_hash_axioms;

            let b: u32 = live[i];
            assert(pre.is_posting(live@[i as int] as int));
            self.block_cid.set(b as usize, i as u64);
            self.cid_block.insert(i as u64, b);
            i = i + 1;
        }
        proof {
            let g = self.graph;
            assert forall|b: int| #[trigger] self.is_posting(b) == pre.is_posting(b) by {
                if 0 <= b < self.block_cid@.len() {
                    assert(self.block_cid@[b] == FREE <==> !pre.is_posting(b));
                }
            }
            self.lemma_postings_same(&pre, self.block_cid@.len() as int);
            assert(g.total() == n);
            if n > 0 {
                assert(self.is_routed_by(live@, cents, g.base->0));
            }
            assert forall|b: int| #[trigger] self.is_posting(b) implies self.cid_block@.contains_key(
                self.block_cid@[b],
            ) && self.cid_block@[self.block_cid@[b]] == b && self.graph_has(b) by {
                assert(pre.is_posting(b));
                assert(live@.contains(b as u32));
                let k = choose|k: int| 0 <= k < live@.len() && live@[k] == b as u32;
                assert(self.block_cid@[b] == k);
                assert(g.global(k) == k);
                assert(g.live_at(k));
                assert(g.vector_at(k) == cents@[k]@);
            }
            assert forall|cid: u64| #[trigger] self.cid_block@.contains_key(cid) implies self.is_posting(
                self.cid_block@[cid] as int,
            ) && self.block_cid@[self.cid_block@[cid] as int] == cid by {
                assert(self.cid_block@[cid as int as u64] == live@[cid as int]);
                assert(pre.is_posting(live@[cid as int] as int));
            }
            assert(self.routed());
            assert(self.shape()) by {
                assert forall|b: int| #[trigger] self.is_posting(b) implies self.centroid(b).len()
                    == self.dim by {
                    assert(pre.is_posting(b));
                }
            }
            assert(self.freed()) by {
                assert forall|i: int| 0 <= i < self.free@.len() implies (
                #[trigger] self.free@[i]).0 < self.block_cid@.len() && !self.is_posting(
                    self.free@[i].0 as int,
                ) by {
                    assert(!pre.is_posting(pre.free@[i].0 as int));
                }
            }
            assert(self.coded()) by {
                assert forall|c: int, i: int|
                    self.is_posting(c) && 0 <= i < self.posting(c).len() implies {
                    &&& (#[trigger] self.posting(c)[i]).id < self.next_id
                    &&& self.posting(c)[i].code == self.code_for(
                        self.raw_at(self.posting(c)[i].id as int),
                        self.centroid(c),
                    )
                } by {
                    assert(pre.is_posting(c));
                    assert(self.posting(c)[i] == pre.posting(c)[i]);
                }
            }
            assert(self.unique()) by {
                assert forall|c: int, i: int, d: int, j: int|
                    self.is_posting(c) && self.is_posting(d) && 0 <= i < self.posting(c).len()
                        && 0 <= j < self.posting(d).len() && (#[trigger] self.posting(c)[i]).id == (
                    #[trigger] self.posting(d)[j]).id implies c == d && i == j by {
                    assert(pre.is_posting(c) && pre.is_posting(d));
                    assert(pre.posting(c)[i].id == pre.posting(d)[j].id);
                }
            }
        }
        Ok(())
    }

    pub(crate) proof fn lemma_postings_same(&self, other: &Self, upto: int)
        requires
            forall|b: int| #[trigger] self.is_posting(b) == other.is_posting(b),
        ensures
            self.postings_upto(upto) == other.postings_upto(upto),
        decreases upto,
    {
        if upto > 0 {
            self.lemma_postings_same(other, upto - 1);
            assert(self.is_posting(upto - 1) == other.is_posting(upto - 1));
        }
    }
}

proof fn lemma_built_graph<'a, D: Distance>(
    cents: &Vec<Vec<u32>>,
    dist: D,
    config: IncrementalConfig,
    r: Result<IncrementalDiskANN<'a, D>, DiskAnnError>,
)
    requires
        cents@.len() > 0,
        kmeans::level(cents@, cents@[0]@.len() as int),
        exists|
            base: Result<index::DiskANN<'a, D>, DiskAnnError>,
            trained: Result<QuantizerState, DiskAnnError>,
        | #[trigger]
            IncrementalDiskANN::built(
                cents,
                None,
                dist,
                config,
                None,
                0,
                base,
                trained,
                r,
            ),
    ensures
        match r {
            Ok(g) => {
                &&& g.dim == cents@[0]@.len()
                &&& g.dist == dist
                &&& g.is_well_based()
                &&& g.is_plain()
                &&& g.delta.graph@.len() == 0
                &&& g.base is Some
                &&& DiskANN::built(
                    cents,
                    index::BUILD_MAX_DEGREE as int,
                    index::BUILD_BEAM_WIDTH as int,
                    index::DISKANN_DEFAULT_ALPHA,
                    dist,
                    Ok(g.base->0),
                )
                &&& g.total() == cents@.len()
                &&& g.delta.vectors@.len() == 0
                &&& g.tombstones@ == Set::<u64>::empty()
                &&& forall|i: int|
                    0 <= i < cents@.len() ==> g.vector_at(i) == (#[trigger] cents@[i])@
            },
            Err(e) => {
                &&& e == DiskAnnError::IndexError(Fault::HeaderTooLarge)
                &&& 52 + vstd::utf8::encode_utf8(dist.name_spec()).len() > index::VECTORS_OFFSET
                    - 16
            },
        },
{
    let (base, trained) = choose|
        base: Result<index::DiskANN<'a, D>, DiskAnnError>,
        trained: Result<QuantizerState, DiskAnnError>,
    | #[trigger]
        IncrementalDiskANN::built(cents, None, dist, config, None, 0, base, trained, r);
    lemma_level_matches(cents@, cents@[0]@.len() as int, 0);
    if base is Ok {
        crate::image::built_index_is_well_based(
            cents,
            None,
            dist,
            config,
            None,
            0,
            base,
            trained,
            r,
        );
        let b = base->Ok_0;
        assert(b.is_built_from(
            cents,
            index::BUILD_MAX_DEGREE as int,
            index::BUILD_BEAM_WIDTH as int,
            index::DISKANN_DEFAULT_ALPHA,
            dist,
        ));
        let g = r->Ok_0;
        assert forall|i: int| 0 <= i < cents@.len() implies g.vector_at(i) == (
        #[trigger] cents@[i])@ by {
            assert(b.vector(i) == cents@[i]@);
        }
    }
}

proof fn lemma_level_matches(vectors: Seq<Vec<u32>>, dim: int, from: int)
    requires
        kmeans::level(vectors, dim),
        0 <= from <= vectors.len(),
    ensures
        index::first_mismatch(vectors, dim, from) is None,
    decreases vectors.len() - from,
{
    if from < vectors.len() {
        assert(vectors[from]@.len() == dim);
        lemma_level_matches(vectors, dim, from + 1);
    }
}

impl<'a, D: Distance> SPFresh<'a, D> {
    /// Every vector that was not deleted is in a posting.
    pub open spec fn is_complete(&self) -> bool {
        forall|id: u64|
            id < self.next_id && !self.deleted@.contains(id) ==> #[trigger] self.is_placed(id)
    }

    /// Adds vectors to those that are stored, but to no posting.
    #[verifier::rlimit(40)]
    fn store(&mut self, vectors: &Vec<Vec<u32>>)
        requires
            old(self).wf(),
            kmeans::level(vectors@, old(self).dim as int),
            old(self).next_id + vectors@.len() <= usize::MAX,
            (old(self).next_id + vectors@.len()) * old(self).dim <= usize::MAX,
        ensures
            final(self).same_postings(&*old(self)),
            final(self).wf(),
            final(self).next_id == old(self).next_id + vectors@.len(),
            final(self).live == old(self).live + vectors@.len(),
            final(self).deleted == old(self).deleted,
            final(self).dim == old(self).dim,
            final(self).cfg == old(self).cfg,
            final(self).dist == old(self).dist,
            final(self).quantizer == old(self).quantizer,
            final(self).epoch == old(self).epoch,
            final(self).synced_id == old(self).synced_id,
            forall|id: int|
                0 <= id < old(self).next_id ==> #[trigger] final(self).raw_at(id) == old(
                    self,
                ).raw_at(id),
            forall|i: int|
                0 <= i < vectors@.len() ==> final(self).raw_at(old(self).next_id + i) == (
                #[trigger] vectors@[i])@,
            final(self).postings == old(self).postings,
            final(self).block_cid == old(self).block_cid,
            final(self).block_centroid == old(self).block_centroid,
            forall|c: int, id: u64| #[trigger]
                final(self).holds_id(c, id) == old(self).holds_id(c, id),
    {
        let ghost pre = *self;
        let ghost n0 = self.next_id as int;
        let dim: usize = self.dim;
        let mut i: usize = 0;
        while i < vectors.len()
            invariant
                i <= vectors@.len(),
                n0 == pre.next_id,
                dim == pre.dim,
                kmeans::level(vectors@, dim as int),
                n0 + vectors@.len() <= usize::MAX,
                (n0 + vectors@.len()) * dim <= usize::MAX,
                self.same_but_raw(&pre),
                self.raw@.len() == (n0 + i) * dim,
                forall|id: int|
                    0 <= id < n0 ==> #[trigger] self.raw@.subrange(id * dim, id * dim + dim)
                        == pre.raw_at(id),
                forall|k: int|
                    0 <= k < i ==> self.raw@.subrange(
                        (n0 + k) * dim,
                        (n0 + k) * dim + dim,
                    ) == (#[trigger] vectors@[k])@,
            decreases vectors@.len() - i,
        {
            let ghost before = self.raw@;
            assert(vectors@[i as int]@.len() == dim);
            crate::pq::push_all(&mut self.raw, vectors[i].as_slice());
            proof {
                crate::pq::lemma_flat_bounds(n0 + i, n0 + i + 1, dim as int);
                assert forall|id: int| 0 <= id < n0 implies #[trigger] self.raw@.subrange(
                    id * dim,
                    id * dim + dim,
                ) == pre.raw_at(id) by {
                    crate::pq::lemma_flat_bounds(id, n0 + i, dim as int);
                    assert(self.raw@.subrange(id * dim, id * dim + dim) =~= before.subrange(
                        id * dim,
                        id * dim + dim,
                    ));
                }
                assert forall|k: int| 0 <= k < i + 1 implies self.raw@.subrange(
                    (n0 + k) * dim,
                    (n0 + k) * dim + dim,
                ) == (#[trigger] vectors@[k])@ by {
                    if k < i {
                        crate::pq::lemma_flat_bounds(n0 + k, n0 + i, dim as int);
                        assert(self.raw@.subrange((n0 + k) * dim, (n0 + k) * dim + dim)
                            =~= before.subrange((n0 + k) * dim, (n0 + k) * dim + dim));
                    } else {
                        assert(self.raw@.subrange((n0 + k) * dim, (n0 + k) * dim + dim)
                            =~= vectors@[k]@);
                    }
                }
            }
            i = i + 1;
        }
        self.next_id = self.next_id + vectors.len() as u64;
        proof {
            assert(pre.live <= pre.next_id);
        }
        self.live = self.live + vectors.len();
        proof {
            assert forall|id: int| 0 <= id < pre.next_id implies #[trigger] self.raw_at(id)
                == pre.raw_at(id) by {
                assert(self.raw@.subrange(id * dim, id * dim + dim) == pre.raw_at(id));
            }
            assert(self.shape()) by {
                assert forall|b: int| #[trigger] self.is_posting(b) implies self.centroid(b).len()
                    == self.dim by {
                    assert(pre.is_posting(b));
                }
            }
            self.lemma_routed_same(&pre);
            assert(self.freed()) by {
                assert forall|i: int| 0 <= i < self.free@.len() implies (
                #[trigger] self.free@[i]).0 < self.block_cid@.len() && !self.is_posting(
                    self.free@[i].0 as int,
                ) by {
                    assert(!pre.is_posting(pre.free@[i].0 as int));
                }
            }
            assert(self.coded()) by {
                assert forall|c: int, i: int|
                    self.is_posting(c) && 0 <= i < self.posting(c).len() implies {
                    &&& (#[trigger] self.posting(c)[i]).id < self.next_id
                    &&& self.posting(c)[i].code == self.code_for(
                        self.raw_at(self.posting(c)[i].id as int),
                        self.centroid(c),
                    )
                } by {
                    assert(pre.is_posting(c));
                    assert(pre.posting(c)[i].id < pre.next_id);
                }
            }
            assert(self.unique()) by {
                assert forall|c: int, i: int, d: int, j: int|
                    self.is_posting(c) && self.is_posting(d) && 0 <= i < self.posting(c).len()
                        && 0 <= j < self.posting(d).len() && (#[trigger] self.posting(c)[i]).id == (
                    #[trigger] self.posting(d)[j]).id implies c == d && i == j by {
                    assert(pre.is_posting(c) && pre.is_posting(d));
                    assert(pre.posting(c)[i].id == pre.posting(d)[j].id);
                }
            }
            assert forall|c: int, id: u64| #[trigger] self.holds_id(c, id) == pre.holds_id(c, id) by {
                assert(self.posting(c) == pre.posting(c));
                assert(self.is_posting(c) == pre.is_posting(c));
            }
        }
    }

    spec fn same_but_raw(&self, other: &Self) -> bool {
        &&& self.dim == other.dim
        &&& self.cfg == other.cfg
        &&& self.dist == other.dist
        &&& self.quantizer == other.quantizer
        &&& self.graph == other.graph
        &&& self.block_cid == other.block_cid
        &&& self.block_centroid == other.block_centroid
        &&& self.cid_block == other.cid_block
        &&& self.free == other.free
        &&& self.created == other.created
        &&& self.epoch == other.epoch
        &&& self.dirty == other.dirty
        &&& self.write_seq == other.write_seq
        &&& self.synced_id == other.synced_id
        &&& self.postings == other.postings
        &&& self.next_id == other.next_id
        &&& self.deleted == other.deleted
        &&& self.live == other.live
    }

    /// The posting that a vector goes to: the one that was found for it, if that is still
    /// there, or else the nearest now; or a new one that is nearer.
    pub open spec fn is_choice(
        &self,
        v: &[u32],
        target: Option<u32>,
        hits: Seq<Hit>,
        found: Seq<Candidate>,
        r: Option<Candidate>,
    ) -> bool {
        let first = match target {
            Some(t) => if self.is_posting(t as int) {
                Some(Candidate { dist: self.dist.eval_spec(v@, self.centroid(t as int)), id: t })
            } else {
                first_of(found)
            },
            None => first_of(found),
        };
        &&& (target is None || !self.is_posting(target->0 as int)) ==> self.nearest_result(
            v,
            1,
            hits,
            found,
        )
        &&& r == self.nearer_new(v@, first, self.created@.len() as int)
    }

    /// The nearest among `first` and the first `upto` of the new postings.
    pub open spec fn nearer_new(&self, v: Seq<u32>, first: Option<Candidate>, upto: int) -> Option<
        Candidate,
    >
        decreases upto,
    {
        if upto <= 0 {
            first
        } else {
            let before = self.nearer_new(v, first, upto - 1);
            let c = self.created@[upto - 1];
            if !self.is_posting(c as int) {
                before
            } else {
                let d = self.dist.eval_spec(v, self.centroid(c as int));
                match before {
                    Some(b) => if word::less(d, b.dist) {
                        Some(Candidate { dist: d, id: c })
                    } else {
                        before
                    },
                    None => Some(Candidate { dist: d, id: c }),
                }
            }
        }
    }

    fn choose_block(&self, v: &[u32], target: Option<u32>) -> (r: Option<Candidate>)
        requires
            self.wf(),
            v@.len() == self.dim,
            target matches Some(t) ==> t < self.block_cid@.len(),
        ensures
            exists|hits: Seq<Hit>, found: Seq<Candidate>| #[trigger]
                self.is_choice(v, target, hits, found, r),
            r matches Some(c) ==> self.is_posting(c.id as int),
    {
        let kept: bool = match target {
            Some(t) => self.is_live(t),
            None => false,
        };
        let ghost mut hits: Seq<Hit> = Seq::empty();
        let ghost mut list: Seq<Candidate> = Seq::empty();
        let first: Option<Candidate> = if kept {
            let t: u32 = match target {
                Some(t) => t,
                None => 0,
            };
            assert(self.is_posting(t as int));
            Some(
                Candidate {
                    dist: self.dist.eval(v, self.block_centroid[t as usize].as_slice()),
                    id: t,
                },
            )
        } else {
            let found = self.nearest(v, 1);
            proof {
                hits = choose|hits: Seq<Hit>| #[trigger] self.nearest_result(v, 1, hits, found@);
                list = found@;
            }
            if found.len() > 0 {
                assert(self.is_posting(found@[0].id as int));
                Some(found[0])
            } else {
                None
            }
        };
        let mut best = first;
        let mut i: usize = 0;
        while i < self.created.len()
            invariant
                i <= self.created@.len(),
                self.wf(),
                v@.len() == self.dim,
                best == self.nearer_new(v@, first, i as int),
                best matches Some(c) ==> self.is_posting(c.id as int),
            decreases self.created@.len() - i,
        {
            let c: u32 = self.created[i];
            assert(self.created@[i as int] < self.block_cid@.len());
            if self.is_live(c) {
                assert(self.is_posting(c as int));
                let d: u32 = self.dist.eval(v, self.block_centroid[c as usize].as_slice());
                let nearer: bool = match best {
                    Some(b) => word::lt(d, b.dist),
                    None => true,
                };
                if nearer {
                    best = Some(Candidate { dist: d, id: c });
                }
            }
            i = i + 1;
        }
        assert(self.is_choice(v, target, hits, list, best));
        best
    }

    /// Puts a vector into a posting.
    #[verifier::rlimit(40)]
    fn place(&mut self, id: u64, target: Option<u32>) -> (r: Result<(), DiskAnnError>)
        requires
            old(self).wf(),
            old(self).is_small(),
            id < old(self).next_id,
            !old(self).is_placed(id),
            !old(self).deleted@.contains(id),
            target matches Some(t) ==> t < old(self).block_cid@.len(),
        ensures
            final(self).marks_writes(&*old(self)),
            final(self).wf(),
            final(self).same_store(&*old(self)),
            old(self).block_cid@.len() <= final(self).block_cid@.len(),
            final(self).no_new_dead(&*old(self)),
            forall|x: u64| #[trigger]
                final(self).is_placed(x) ==> old(self).is_placed(x) || x == id,
            forall|x: u64| #[trigger]
                old(self).is_placed(x) && !old(self).deleted@.contains(x) ==> final(self).is_placed(x),
            match r {
                Ok(_) => final(self).is_small() && final(self).is_placed(id) && final(self).placed(
                    &*old(self),
                    id,
                    target,
                ),
                Err(e) => e == DiskAnnError::IndexError(Fault::OutOfRoom) && final(self).ran_out_placing(&*old(self), id, 0, target),
            },
    {
        let ghost pre = *self;
        let mut v: Vec<u32> = Vec::new();
        crate::pq::push_all(&mut v, self.raw(id));
        assert(v@ =~= self.raw_at(id as int));
        let whole = v.as_slice();
        let best = self.choose_block(whole, target);
        let ghost (hits, found) = choose|hits: Seq<Hit>, found: Seq<Candidate>| #[trigger]
            pre.is_choice(whole, target, hits, found, best);
        proof {
            self.lemma_unwritten(&pre);
        }
        let b: u32 = match best {
            Some(c) => c.id,
            None => {
                if !self.check_room(2) {
                    return Err(DiskAnnError::IndexError(Fault::OutOfRoom));
                }
                proof {
                    self.lemma_less_room(2, 1);
                }
                self.new_posting(v.clone())
            },
        };
        let ghost st = *self;
        proof {
            assert(best is None ==> st.opened_posting(&pre, b as int, v@));
            assert(st.is_posting(b as int));
            assert forall|c: int, x: u64| #[trigger] st.holds_id(c, x) == pre.holds_id(c, x) by {
                if pre.is_posting(c) {
                    assert(st.is_posting(c));
                    assert(st.posting(c) == pre.posting(c));
                } else if st.is_posting(c) {
                    assert(st.posting(c).len() == 0);
                }
            }
            assert forall|x: u64| #[trigger] st.is_placed(x) == pre.is_placed(x) by {
                if st.is_placed(x) {
                    let c = choose|c: int| #[trigger] st.holds_id(c, x);
                    assert(pre.holds_id(c, x));
                }
                if pre.is_placed(x) {
                    let c = choose|c: int| #[trigger] pre.holds_id(c, x);
                    assert(st.holds_id(c, x));
                }
            }
            assert forall|c: int| #[trigger] st.is_posting(c) implies st.posting(c).len()
                < st.cfg.max_posting_size by {
                if pre.is_posting(c) {
                    assert(st.posting(c) == pre.posting(c));
                }
            }
        }
        let code = self.encode(v.as_slice(), b);
        let e = Held { id, code };
        let r = self.put(b, &e, Ghost(b as int));
        proof {
            self.lemma_written(&st, &pre);
            assert(self.put_in(&st, b as int, id));
            assert(pre.is_choice(whole, target, hits, found, best));
            assert(self.placed(&pre, id, target));
            assert forall|x: u64| #[trigger] self.is_placed(x) implies pre.is_placed(x) || x == id by {
                if x != id {
                    assert(st.is_placed(x));
                }
            }
            assert forall|x: u64| #[trigger]
                pre.is_placed(x) && !pre.deleted@.contains(x) implies self.is_placed(x) by {
                assert(st.is_placed(x));
            }
            assert forall|c: int, x: u64| #[trigger]
                self.holds_id(c, x) && self.deleted@.contains(x) implies pre.holds_id(c, x) by {
                assert(st.holds_id(c, x));
            }
        }
        r
    }

    /// Moves an entry that is in no posting into one, and splits what grows too large.
    #[verifier::rlimit(40)]
    fn put(&mut self, b: u32, e: &Held, Ghost(from): Ghost<int>) -> (r: Result<(), DiskAnnError>)
        requires
            old(self).wf(),
            old(self).is_small(),
            old(self).is_posting(b as int),
            e.id < old(self).next_id,
            !old(self).is_placed(e.id),
            !old(self).deleted@.contains(e.id),
            e.code@ == old(self).code_for(
                old(self).raw_at(e.id as int),
                old(self).centroid(from),
            ) || (old(self).quantizer matches Some(QuantizerState::RaBitQ(_))),
            e.code@.len() == old(self).postings.code_size,
        ensures
            final(self).marks_writes(&*old(self)),
            final(self).wf(),
            final(self).same_store(&*old(self)),
            final(self).has_postings(),
            final(self).put_in(&*old(self), b as int, e.id),
            old(self).block_cid@.len() <= final(self).block_cid@.len(),
            final(self).postings.code_size == old(self).postings.code_size,
            final(self).no_new_dead(&*old(self)),
            forall|x: u64| #[trigger]
                final(self).is_placed(x) ==> old(self).is_placed(x) || x == e.id,
            forall|x: u64| #[trigger]
                old(self).is_placed(x) && !old(self).deleted@.contains(x) ==> final(self).is_placed(
                    x,
                ),
            match r {
                Ok(_) => final(self).is_small() && final(self).is_placed(e.id),
                Err(fault) => fault == DiskAnnError::IndexError(Fault::OutOfRoom) && final(self).ran_out_putting(&*old(self), b as int, e.id),
            },
    {
        let ghost st = *self;
        let ghost id = e.id;
        self.settle(b, e, Ghost(from));
        let ghost put = *self;
        proof {
            assert(put.holds_id(b as int, id));
            assert(put.is_posting(b as int));
            assert forall|x: u64| #[trigger] put.is_placed(x) <==> st.is_placed(x) || x == id by {
                if put.is_placed(x) {
                    let c = choose|c: int| #[trigger] put.holds_id(c, x);
                    if x != id {
                        assert(st.holds_id(c, x));
                    }
                }
                if st.is_placed(x) {
                    let c = choose|c: int| #[trigger] st.holds_id(c, x);
                    assert(put.holds_id(c, x));
                }
            }
            assert forall|c: int| #[trigger]
                put.is_posting(c) && put.posting(c).len() >= put.cfg.max_posting_size implies c == b by {
                if c != b {
                    assert(put.posting(c) == st.posting(c));
                    assert(st.is_posting(c));
                }
            }
            assert forall|c: int, x: u64| #[trigger]
                put.holds_id(c, x) && put.deleted@.contains(x) implies st.holds_id(c, x) by {}
        }
        if self.postings.len(b as usize) >= self.cfg.max_posting_size {
            let mut queue: Vec<u32> = Vec::new();
            queue.push(b);
            assert(queue@[0] == b);
            assert(queue@.contains(b));
            let r = self.drain(&mut queue);
            proof {
                assert(put.gained(&st, b as int, id));
                self.lemma_written(&put, &st);
                assert forall|x: u64| #[trigger] self.is_placed(x) implies st.is_placed(x) || x
                    == id by {
                    assert(put.is_placed(x));
                }
                assert forall|x: u64| #[trigger]
                    st.is_placed(x) && !st.deleted@.contains(x) implies self.is_placed(x) by {
                    assert(put.is_placed(x));
                }
                assert(put.is_placed(id));
                assert forall|c: int, x: u64| #[trigger]
                    self.holds_id(c, x) && self.deleted@.contains(x) implies st.holds_id(c, x) by {
                    assert(put.holds_id(c, x));
                }
            }
            return r;
        }
        proof {
            assert forall|c: int| #[trigger] self.is_posting(c) implies self.posting(c).len()
                < self.cfg.max_posting_size by {
                if self.posting(c).len() >= self.cfg.max_posting_size {
                    assert(c == b);
                }
            }
            assert(put.gained(&st, b as int, id));
            assert(put.is_placed(id));
        }
        Ok(())
    }
}

/// The first of some candidates.
pub open spec fn first_of(found: Seq<Candidate>) -> Option<Candidate> {
    if found.len() > 0 {
        Some(found[0])
    } else {
        None
    }
}

impl<'a, D: Distance> SPFresh<'a, D> {
    /// What never changes but by adding vectors and deleting them, and the epoch, apart.
    pub open spec fn same_vectors(&self, other: &Self) -> bool {
        &&& self.dim == other.dim
        &&& self.cfg == other.cfg
        &&& self.dist == other.dist
        &&& self.quantizer == other.quantizer
        &&& self.synced_id == other.synced_id
        &&& self.raw == other.raw
        &&& self.next_id == other.next_id
        &&& self.deleted == other.deleted
        &&& self.live == other.live
    }

    /// Begins a new epoch: blocks that were freed before may be used again.
    fn begin_epoch(&mut self)
        requires
            old(self).wf(),
            old(self).epoch < u64::MAX,
        ensures
            final(self).has_begun(&*old(self)),
            final(self).wf(),
            final(self).same_vectors(&*old(self)),
            final(self).epoch == old(self).epoch + 1,
            final(self).postings == old(self).postings,
            final(self).block_cid == old(self).block_cid,
            final(self).block_centroid == old(self).block_centroid,
            final(self).cid_block == old(self).cid_block,
            final(self).created@.len() == 0,
            forall|c: int, id: u64| #[trigger]
                final(self).holds_id(c, id) == old(self).holds_id(c, id),
    {
        let ghost pre = *self;
        self.epoch = self.epoch + 1;
        self.created.clear();
        proof {
            self.lemma_routed_same(&pre);
            self.lemma_rest_same(&pre);
        }
    }

    /// Entries stay well-formed when nothing about them changes.
    proof fn lemma_rest_same(&self, before: &Self)
        requires
            before.wf(),
            self.same_vectors(before),
            self.postings == before.postings,
            self.block_cid == before.block_cid,
            self.block_centroid == before.block_centroid,
            self.free == before.free,
            self.created@.len() == 0 || self.created == before.created,
            self.routed(),
        ensures
            self.wf(),
            forall|c: int, id: u64| #[trigger] self.holds_id(c, id) == before.holds_id(c, id),
            forall|id: u64| #[trigger] self.is_placed(id) == before.is_placed(id),
    {
        assert forall|b: int| #[trigger] self.is_posting(b) implies self.centroid(b).len()
            == self.dim by {
            assert(before.is_posting(b));
        }
        assert forall|i: int| 0 <= i < self.free@.len() implies (#[trigger] self.free@[i]).0
            < self.block_cid@.len() && !self.is_posting(self.free@[i].0 as int) by {
            assert(!before.is_posting(before.free@[i].0 as int));
        }
        assert forall|c: int, i: int| self.is_posting(c) && 0 <= i < self.posting(c).len() implies {
            &&& (#[trigger] self.posting(c)[i]).id < self.next_id
            &&& self.posting(c)[i].code == self.code_for(
                self.raw_at(self.posting(c)[i].id as int),
                self.centroid(c),
            )
        } by {
            assert(before.is_posting(c));
            assert(self.posting(c)[i] == before.posting(c)[i]);
        }
        assert forall|c: int, i: int, d: int, j: int|
            self.is_posting(c) && self.is_posting(d) && 0 <= i < self.posting(c).len() && 0 <= j
                < self.posting(d).len() && (#[trigger] self.posting(c)[i]).id == (
            #[trigger] self.posting(d)[j]).id implies c == d && i == j by {
            assert(before.is_posting(c) && before.is_posting(d));
            assert(before.posting(c)[i].id == before.posting(d)[j].id);
        }
        assert forall|c: int, id: u64| #[trigger] self.holds_id(c, id) == before.holds_id(c, id) by {
            assert(self.posting(c) == before.posting(c));
            assert(self.is_posting(c) == before.is_posting(c));
        }
        assert forall|id: u64| #[trigger] self.is_placed(id) == before.is_placed(id) by {
            if self.is_placed(id) {
                let c = choose|c: int| #[trigger] self.holds_id(c, id);
                assert(before.holds_id(c, id));
            }
            if before.is_placed(id) {
                let c = choose|c: int| #[trigger] before.holds_id(c, id);
                assert(self.holds_id(c, id));
            }
        }
    }

    /// Building the graph anew leaves entries where they are.
    proof fn lemma_entries_same(&self, before: &Self)
        requires
            self.same_entries(before),
        ensures
            forall|c: int, id: u64| #[trigger] self.holds_id(c, id) == before.holds_id(c, id),
            forall|id: u64| #[trigger] self.is_placed(id) == before.is_placed(id),
            before.is_small() ==> self.is_small(),
            before.has_postings() ==> self.has_postings(),
    {
        assert forall|c: int, id: u64| #[trigger] self.holds_id(c, id) == before.holds_id(c, id) by {
            assert(self.is_posting(c) == before.is_posting(c));
            assert(self.posting(c) == before.posting(c));
        }
        assert forall|id: u64| #[trigger] self.is_placed(id) == before.is_placed(id) by {
            if self.is_placed(id) {
                let c = choose|c: int| #[trigger] self.holds_id(c, id);
                assert(before.holds_id(c, id));
            }
            if before.is_placed(id) {
                let c = choose|c: int| #[trigger] before.holds_id(c, id);
                assert(self.holds_id(c, id));
            }
        }
        if before.is_small() {
            assert forall|c: int| #[trigger] self.is_posting(c) implies self.posting(c).len()
                < self.cfg.max_posting_size by {
                assert(before.is_posting(c));
            }
        }
        if before.has_postings() {
            let b = choose|b: int| #[trigger] before.is_posting(b);
            assert(self.is_posting(b));
        }
    }

    proof fn lemma_out_at(&self, before: &Self, first: u64, k: int, target: Option<u32>)
        requires
            self.ran_out_placing(before, (first + k) as u64, 0, target),
            0 <= k,
            first + k <= u64::MAX,
        ensures
            self.ran_out_placing(before, first, k, target),
    {
    }

    /// Puts vectors with ids from `first` on into postings.
    #[verifier::rlimit(60)]
    fn place_all(&mut self, first: u64, count: usize) -> (r: Result<(), DiskAnnError>)
        requires
            old(self).wf(),
            old(self).is_small(),
            first + count <= old(self).next_id,
            forall|id: u64|
                first <= id < first + count ==> !#[trigger] old(self).is_placed(id) && !old(
                    self,
                ).deleted@.contains(id),
        ensures
            final(self).marks_writes(&*old(self)),
            final(self).wf(),
            final(self).same_store(&*old(self)),
            old(self).block_cid@.len() <= final(self).block_cid@.len(),
            forall|x: u64| #[trigger]
                final(self).is_placed(x) ==> old(self).is_placed(x) || first <= x < first + count,
            forall|x: u64| #[trigger]
                old(self).is_placed(x) && !old(self).deleted@.contains(x) ==> final(self).is_placed(
                    x,
                ),
            match r {
                Ok(_) => final(self).is_small() && final(self).placed_all(
                    &*old(self),
                    first,
                    count as int,
                ) && forall|id: u64|
                    first <= id < first + count ==> #[trigger] final(self).is_placed(id),
                Err(e) => e == DiskAnnError::IndexError(Fault::OutOfRoom) && final(self).ran_out_among(
                    &*old(self),
                    first,
                    count as int,
                ),
            },
    {
        let ghost pre = *self;
        let mut targets: Vec<Option<u32>> = Vec::new();
        let mut i: usize = 0;
        while i < count
            invariant
                i <= count,
                *self == pre,
                self.wf(),
                first + count <= self.next_id,
                targets@.len() == i,
                forall|k: int|
                    0 <= k < i ==> ((#[trigger] targets@[k]) matches Some(t) ==> t
                        < self.block_cid@.len()),
                forall|k: int|
                    0 <= k < i ==> self.is_target((first + k) as u64, #[trigger] targets@[k]),
            decreases count - i,
        {
            let v = self.raw(first + i as u64);
            let found = self.nearest(v, 1);
            let ghost hits = choose|hits: Seq<Hit>| #[trigger] self.nearest_result(v, 1, hits, found@);
            assert(self.nearest_result(v, 1, hits, found@));
            if found.len() > 0 {
                assert(self.is_posting(found@[0].id as int));
                targets.push(Some(found[0].id));
            } else {
                targets.push(None);
            }
            i = i + 1;
        }
        let mut i: usize = 0;
        proof {
            self.lemma_unwritten(&pre);
        }
        while i < count
            invariant
                i <= count,
                pre == *old(self),
                self.marks_writes(&pre),
                self.placed_all(&pre, first, i as int),
                forall|k: int|
                    0 <= k < count ==> pre.is_target((first + k) as u64, #[trigger] targets@[k]),
                self.wf(),
                self.is_small(),
                self.same_store(&pre),
                pre.block_cid@.len() <= self.block_cid@.len(),
                first + count <= self.next_id,
                targets@.len() == count,
                forall|k: int|
                    0 <= k < count ==> ((#[trigger] targets@[k]) matches Some(t) ==> t
                        < pre.block_cid@.len()),
                forall|id: u64|
                    first <= id < first + count ==> !#[trigger] pre.is_placed(id)
                        && !pre.deleted@.contains(id),
                forall|x: u64| #[trigger]
                    self.is_placed(x) ==> pre.is_placed(x) || first <= x < first + i,
                forall|x: u64| #[trigger]
                    pre.is_placed(x) && !pre.deleted@.contains(x) ==> self.is_placed(x),
                forall|id: u64| first <= id < first + i ==> #[trigger] self.is_placed(id),
            decreases count - i,
        {
            let ghost st = *self;
            let id: u64 = first + i as u64;
            proof {
                assert(!pre.is_placed(id));
                assert(!self.is_placed(id));
                assert(targets@[i as int] matches Some(t) ==> t < pre.block_cid@.len());
            }
            let r = self.place(id, targets[i]);
            proof {
                self.lemma_written(&st, &pre);
                assert(pre.is_target((first + i) as u64, targets@[i as int]));
                if r is Ok {
                    assert(self.placed(&st, id, targets@[i as int]));
                    self.lemma_placed(&st, &pre, first, targets@[i as int], i + 1);
                }
                assert forall|x: u64| #[trigger] self.is_placed(x) implies pre.is_placed(x) || first
                    <= x < first + i + 1 by {
                    if x != id {
                        assert(st.is_placed(x));
                    }
                }
                assert forall|x: u64| #[trigger]
                    pre.is_placed(x) && !pre.deleted@.contains(x) implies self.is_placed(x) by {
                    assert(st.is_placed(x));
                }
                assert forall|x: u64| first <= x < first + i implies #[trigger] self.is_placed(x) by {
                    assert(!pre.is_placed(x));
                    assert(st.is_placed(x));
                }
            }
            match r {
                Ok(_) => {},
                Err(e) => {
                    proof {
                        let target = targets@[i as int];
                        self.lemma_out_at(&st, first, i as int, target);
                    }
                    return Err(e);
                },
            }
            i = i + 1;
        }
        Ok(())
    }

    /// Builds the graph anew if centroids came or went since it was built.
    fn compact_if_dirty(&mut self) -> (r: Result<(), DiskAnnError>)
        requires
            old(self).wf(),
        ensures
            final(self).wf(),
            final(self).same_entries(&*old(self)),
            match r {
                Ok(_) => final(self).is_settled(&*old(self)) && final(self).graph.delta.vectors@.len() == 0
                    && final(self).graph.tombstones@.len() == 0,
                Err(e) => {
                    &&& old(self).cannot_rebuild(e)
                    &&& old(self).graph.delta.vectors@.len() > 0 || old(self).graph.tombstones@.len() > 0
                    &&& *final(self) == *old(self)
                },
            },
    {
        let stats = self.graph.stats();
        if stats.delta_vectors > 0 || stats.tombstones > 0 {
            return self.compact();
        }
        Ok(())
    }

    /// What is wrong with vectors that are to be inserted: the first that does not have
    /// `dim` components is reported.
    pub open spec fn inserted_fault(&self, vectors: Seq<Vec<u32>>) -> Option<Fault> {
        match index::first_mismatch(vectors, self.dim as int, 0) {
            Some(i) => Some(
                Fault::InsertedDimension {
                    found: vectors[i]@.len() as usize,
                    expected: self.dim,
                },
            ),
            None => None,
        }
    }

    /// The vectors were stored behind the others.
    pub open spec fn is_longer_by(&self, before: &Self, vectors: Seq<Vec<u32>>) -> bool {
        &&& self.next_id == before.next_id + vectors.len()
        &&& self.live == before.live + vectors.len()
        &&& self.deleted == before.deleted
        &&& self.dim == before.dim
        &&& self.cfg == before.cfg
        &&& self.dist == before.dist
        &&& self.quantizer == before.quantizer
        &&& self.synced_id == before.synced_id
        &&& forall|id: int|
            0 <= id < before.next_id ==> #[trigger] self.raw_at(id) == before.raw_at(id)
        &&& forall|i: int|
            0 <= i < vectors.len() ==> self.raw_at(before.next_id + i) == (#[trigger] vectors[i])@
    }

    /// Inserts vectors, and returns their ids. Each goes to a nearest posting; postings
    /// that grow too large are split.
    #[verifier::rlimit(40)]
    pub fn insert(&mut self, vectors: &Vec<Vec<u32>>) -> (r: Result<Vec<u64>, DiskAnnError>)
        requires
            old(self).wf(),
            old(self).is_small(),
            old(self).is_complete(),
            old(self).next_id + vectors@.len() <= usize::MAX,
            (old(self).next_id + vectors@.len()) * old(self).dim <= usize::MAX,
        ensures
            final(self).marks_writes(&*old(self)),
            final(self).wf(),
            match old(self).inserted_fault(vectors@) {
                Some(fault) => {
                    &&& r is Err
                    &&& r->Err_0 == DiskAnnError::IndexError(fault)
                    &&& *final(self) == *old(self)
                },
                None => {
                    &&& final(self).is_longer_by(&*old(self), vectors@)
                    &&& match r {
                        Ok(ids) => {
                            &&& ids@ == Seq::new(
                                vectors@.len(),
                                |i: int| (old(self).next_id + i) as u64,
                            )
                            &&& final(self).has_inserted(&*old(self), vectors@)
                            &&& final(self).is_small()
                            &&& final(self).is_complete()
                            &&& final(self).graph.delta.vectors@.len() == 0
                            &&& final(self).graph.tombstones@.len() == 0
                        },
                        Err(e) => {
                            &&& final(self).stopped_inserting(&*old(self), vectors@, e)
                            &&& final(self).epoch <= old(self).epoch + vectors@.len() + 1
                        },
                    }
                },
            },
    {
        let ghost pre = *self;
        match incremental::check_dims(vectors, self.dim) {
            Some(i) => {
                proof {
                    self.lemma_unwritten(&pre);
                }
                return Err(
                    DiskAnnError::IndexError(
                        Fault::InsertedDimension { found: vectors[i].len(), expected: self.dim },
                    ),
                );
            },
            None => {},
        }
        let base: u64 = self.next_id;
        let n: usize = vectors.len();
        self.store(vectors);
        let ghost stored = *self;
        proof {
            self.lemma_unwritten(&pre);
            assert forall|id: u64| #[trigger] self.is_placed(id) == pre.is_placed(id) by {
                if self.is_placed(id) {
                    let c = choose|c: int| #[trigger] self.holds_id(c, id);
                    assert(pre.holds_id(c, id));
                }
                if pre.is_placed(id) {
                    let c = choose|c: int| #[trigger] pre.holds_id(c, id);
                    assert(self.holds_id(c, id));
                }
            }
            assert forall|id: u64| base <= id implies !#[trigger] self.is_placed(id) by {
                if pre.is_placed(id) {
                    let c = choose|c: int| #[trigger] pre.holds_id(c, id);
                    let i = choose|i: int|
                        0 <= i < pre.posting(c).len() && (#[trigger] pre.posting(c)[i]).id == id;
                    assert(pre.posting(c)[i].id < pre.next_id);
                }
            }
            assert forall|c: int| #[trigger] self.is_posting(c) implies self.posting(c).len()
                < self.cfg.max_posting_size by {
                assert(pre.is_posting(c));
            }
        }
        let mut ids: Vec<u64> = Vec::new();
        let mut i: usize = 0;
        while i < n
            invariant
                i <= n,
                base + n <= usize::MAX,
                ids@.len() == i,
                forall|k: int| 0 <= k < i ==> #[trigger] ids@[k] == base + k,
            decreases n - i,
        {
            ids.push(base + i as u64);
            i = i + 1;
        }
        let mut done: usize = 0;
        while done < n
            invariant
                done <= n == vectors@.len(),
                pre == *old(self),
                pre.wf(),
                pre.inserted_fault(vectors@) is None,
                base == pre.next_id,
                base + n == stored.next_id,
                stored.is_longer_by(&pre, vectors@),
                self.wf(),
                self.is_small(),
                self.same_vectors(&stored),
                self.marks_writes(&pre),
                stored.same_postings(&pre),
                self.took_chunks(&stored, base, n as int, done as int),
                self.epoch <= pre.epoch + done,
                forall|id: u64| base <= id ==> !pre.deleted@.contains(id),
                forall|id: u64|
                    id < base + done && !self.deleted@.contains(id) ==> #[trigger] self.is_placed(
                        id,
                    ),
                forall|id: u64| base + done <= id ==> !#[trigger] self.is_placed(id),
            decreases n - done,
        {
            proof {
                self.lemma_still_longer(&stored, &pre, vectors@);
            }
            if self.epoch == u64::MAX {
                proof {
                    let e = DiskAnnError::IndexError(Fault::OutOfRoom);
                    assert(self.stopped_after(&*self, base, n as int, done as int, e));
                    assert(stored.same_postings(&pre));
                }
                return Err(DiskAnnError::IndexError(Fault::OutOfRoom));
            }
            let take: usize = if n - done < CHUNK {
                n - done
            } else {
                CHUNK
            };
            let ghost st0 = *self;
            self.begin_epoch();
            let ghost st1 = *self;
            proof {
                st1.lemma_rest_same_placed(&st0);
                st1.lemma_unwritten(&st0);
                st1.lemma_written(&st0, &pre);
                assert forall|c: int| #[trigger] st1.is_posting(c) implies st1.posting(c).len()
                    < st1.cfg.max_posting_size by {
                    assert(st0.is_posting(c));
                }
            }
            let r = self.place_all(base + done as u64, take);
            proof {
                self.lemma_written(&st1, &pre);
                self.lemma_still_longer(&stored, &pre, vectors@);
            }
            match r {
                Ok(_) => {},
                Err(e) => {
                    proof {
                        assert(st1.has_begun(&st0));
                        assert(self.stopped_after(&st0, base, n as int, done as int, e));
                        assert(stored.same_postings(&pre));
                    }
                    return Err(e);
                },
            }
            let ghost st2 = *self;
            proof {
                assert forall|id: u64|
                    id < base + done + take && !self.deleted@.contains(
                        id,
                    ) implies #[trigger] self.is_placed(id) by {
                    if id < base + done {
                        assert(st0.is_placed(id));
                        assert(st1.is_placed(id));
                    }
                }
                assert forall|id: u64| base + done + take <= id implies !#[trigger] self.is_placed(
                    id,
                ) by {
                    if self.is_placed(id) {
                        assert(st1.is_placed(id));
                        assert(st0.is_placed(id));
                    }
                }
            }
            if self.graph.should_compact() {
                let r = self.compact();
                proof {
                    self.lemma_entries_same(&st2);
                    self.lemma_unwritten(&st2);
                    self.lemma_written(&st2, &pre);
                    self.lemma_still_longer(&stored, &pre, vectors@);
                }
                match r {
                    Ok(_) => {},
                    Err(e) => {
                        proof {
                            assert(st1.has_begun(&st0));
                            assert(self.placed_all(&st1, (base + done) as u64, take as int));
                            assert(self.stopped_after(&st0, base, n as int, done as int, e));
                            assert(stored.same_postings(&pre));
                        }
                        return Err(e);
                    },
                }
            }
            proof {
                assert(st1.has_begun(&st0));
                assert(st2.placed_all(&st1, (base + done) as u64, take as int));
                assert(self.took_chunk(&st0, (base + done) as u64, take as int));
                assert(self.took_next(&st0, base, n as int, done as int, done + take));
                assert(self.took_chunks(&stored, base, n as int, done + take));
            }
            done = done + take;
        }
        let ghost st3 = *self;
        let r = self.compact_if_dirty();
        proof {
            self.lemma_entries_same(&st3);
            self.lemma_unwritten(&st3);
            self.lemma_written(&st3, &pre);
            if r is Ok {
                assert(stored.same_postings(&pre) && self.is_settled(&st3));
                assert(self.has_inserted(&pre, vectors@));
            }
            self.lemma_still_longer(&stored, &pre, vectors@);
            assert forall|id: u64|
                id < self.next_id && !self.deleted@.contains(id) implies #[trigger] self.is_placed(
                id,
            ) by {
                assert(st3.is_placed(id));
            }
        }
        match r {
            Ok(_) => {},
            Err(e) => {
                proof {
                    assert(self.stopped_after(&st3, base, n as int, n as int, e));
                    assert(stored.same_postings(&pre));
                }
                return Err(e);
            },
        }
        assert(ids@ =~= Seq::new(vectors@.len(), |i: int| (pre.next_id + i) as u64));
        Ok(ids)
    }

    proof fn lemma_still_longer(&self, stored: &Self, before: &Self, vectors: Seq<Vec<u32>>)
        requires
            self.same_vectors(stored),
            stored.is_longer_by(before, vectors),
        ensures
            self.is_longer_by(before, vectors),
    {
        assert forall|id: int| 0 <= id < before.next_id implies #[trigger] self.raw_at(id)
            == before.raw_at(id) by {
            assert(stored.raw_at(id) == before.raw_at(id));
        }
        assert forall|i: int| 0 <= i < vectors.len() implies self.raw_at(before.next_id + i) == (
        #[trigger] vectors[i])@ by {
            assert(stored.raw_at(before.next_id + i) == vectors[i]@);
        }
    }

    proof fn lemma_rest_same_placed(&self, before: &Self)
        requires
            forall|c: int, id: u64| #[trigger] self.holds_id(c, id) == before.holds_id(c, id),
        ensures
            forall|id: u64| #[trigger] self.is_placed(id) == before.is_placed(id),
    {
        assert forall|id: u64| #[trigger] self.is_placed(id) == before.is_placed(id) by {
            if self.is_placed(id) {
                let c = choose|c: int| #[trigger] self.holds_id(c, id);
                assert(before.holds_id(c, id));
            }
            if before.is_placed(id) {
                let c = choose|c: int| #[trigger] before.holds_id(c, id);
                assert(self.holds_id(c, id));
            }
        }
    }
}

impl<'a, D: Distance> SPFresh<'a, D> {
    /// No posting has an entry of a deleted vector.
    pub open spec fn is_purged(&self) -> bool {
        forall|c: int, id: u64| #[trigger] self.holds_id(c, id) ==> !self.deleted@.contains(id)
    }

    /// A posting that is near a vector, or just any.
    fn some_block(&self, v: &[u32]) -> (r: u32)
        requires
            self.wf(),
            self.has_postings(),
            v@.len() == self.dim,
        ensures
            exists|hits: Seq<Hit>, found: Seq<Candidate>| #[trigger]
                self.nearest_result(v, 1, hits, found) && (found.len() > 0 ==> r == found[0].id),
            self.is_posting(r as int),
    {
        let found = self.nearest(v, 1);
        let ghost hits = choose|hits: Seq<Hit>| #[trigger]
            self.nearest_result(v, 1, hits, found@);
        if found.len() > 0 {
            let r: u32 = found[0].id;
            assert(self.is_posting(found@[0].id as int));
            assert(self.nearest_result(v, 1, hits, found@) && (found@.len() > 0 ==> r
                == found@[0].id));
            return r;
        }
        let live = self.live_blocks();
        proof {
            self.lemma_postings(self.block_cid@.len() as int);
            let b = choose|b: int| #[trigger] self.is_posting(b);
            assert(live@.contains(b as u32));
            assert(self.is_posting(live@[0] as int));
        }
        let r: u32 = live[0];
        assert(self.nearest_result(v, 1, hits, found@) && (found@.len() > 0 ==> r == found@[0].id));
        r
    }

    /// Puts entries of a posting that is no more into others.
    #[verifier::rlimit(40)]
    fn scatter(&mut self, entries: &Vec<Held>, Ghost(centroid): Ghost<Seq<u32>>) -> (r: Result<
        (),
        DiskAnnError,
    >)
        requires
            old(self).wf(),
            old(self).is_small(),
            old(self).has_postings(),
            forall|i: int|
                0 <= i < entries@.len() ==> {
                    &&& (#[trigger] entries@[i]).id < old(self).next_id
                    &&& !old(self).deleted@.contains(entries@[i].id)
                    &&& !old(self).is_placed(entries@[i].id)
                    &&& entries@[i].code@ == old(self).code_for(
                        old(self).raw_at(entries@[i].id as int),
                        centroid,
                    )
                    &&& entries@[i].code@.len() == old(self).postings.code_size
                },
            forall|i: int, j: int|
                0 <= i < j < entries@.len() ==> (#[trigger] entries@[i]).id != (
                #[trigger] entries@[j]).id,
        ensures
            final(self).marks_writes(&*old(self)),
            final(self).wf(),
            final(self).same_store(&*old(self)),
            final(self).has_postings(),
            old(self).block_cid@.len() <= final(self).block_cid@.len(),
            final(self).no_new_dead(&*old(self)),
            forall|x: u64| #[trigger]
                old(self).is_placed(x) && !old(self).deleted@.contains(x) ==> final(self).is_placed(
                    x,
                ),
            match r {
                Ok(_) => final(self).is_small() && final(self).dealt_out(
                    &*old(self),
                    held(entries@),
                    entries@.len() as int,
                ) && forall|i: int|
                    0 <= i < entries@.len() ==> final(self).is_placed((#[trigger] entries@[i]).id),
                Err(e) => e == DiskAnnError::IndexError(Fault::OutOfRoom) && final(self).ran_out_among_entries(&*old(self), held(entries@)),
            },
    {
        let ghost pre = *self;
        let mut i: usize = 0;
        proof {
            self.lemma_unwritten(&pre);
        }
        while i < entries.len()
            invariant
                i <= entries@.len(),
                pre == *old(self),
                self.wf(),
                self.is_small(),
                self.has_postings(),
                self.same_store(&pre),
                self.postings.code_size == pre.postings.code_size,
                pre.block_cid@.len() <= self.block_cid@.len(),
                self.no_new_dead(&pre),
                self.marks_writes(&pre),
                self.dealt_out(&pre, held(entries@), i as int),
                forall|k: int|
                    0 <= k < entries@.len() ==> {
                        &&& (#[trigger] entries@[k]).id < pre.next_id
                        &&& !pre.deleted@.contains(entries@[k].id)
                        &&& entries@[k].code@ == pre.code_for(
                            pre.raw_at(entries@[k].id as int),
                            centroid,
                        )
                        &&& entries@[k].code@.len() == pre.postings.code_size
                    },
                forall|k: int, l: int|
                    0 <= k < l < entries@.len() ==> (#[trigger] entries@[k]).id != (
                    #[trigger] entries@[l]).id,
                forall|k: int|
                    i <= k < entries@.len() ==> !self.is_placed((#[trigger] entries@[k]).id),
                forall|k: int| 0 <= k < i ==> self.is_placed((#[trigger] entries@[k]).id),
                forall|x: u64| #[trigger]
                    pre.is_placed(x) && !pre.deleted@.contains(x) ==> self.is_placed(x),
            decreases entries@.len() - i,
        {
            let ghost st = *self;
            let e = &entries[i];
            let mut v: Vec<u32> = Vec::new();
            crate::pq::push_all(&mut v, self.raw(e.id));
            assert(v@ =~= self.raw_at(e.id as int));
            let b: u32 = self.some_block(v.as_slice());
            assert(self.is_home(e.id, b as int));
            assert(!self.is_placed(entries@[i as int].id));
            assert(self.code_for(self.raw_at(e.id as int), self.centroid(b as int))
                == pre.code_for(pre.raw_at(e.id as int), centroid) || (self.quantizer matches Some(
                QuantizerState::RaBitQ(_),
            )));
            let r = self.put(b, e, Ghost(b as int));
            proof {
                self.lemma_written(&st, &pre);
                assert(held(entries@)[i as int].id == e.id);
                assert(self.put_in(&st, b as int, e.id));
                self.lemma_dealt_out(&st, &pre, held(entries@), b as int, i + 1);
                assert forall|k: int| i < k < entries@.len() implies !self.is_placed(
                    (#[trigger] entries@[k]).id,
                ) by {
                    assert(entries@[i as int].id != entries@[k].id);
                    if self.is_placed(entries@[k].id) {
                        assert(st.is_placed(entries@[k].id));
                    }
                }
                assert forall|k: int| 0 <= k < i implies self.is_placed((#[trigger] entries@[k]).id) by {
                    assert(st.is_placed(entries@[k].id));
                }
                assert forall|x: u64| #[trigger]
                    pre.is_placed(x) && !pre.deleted@.contains(x) implies self.is_placed(x) by {
                    assert(st.is_placed(x));
                }
                assert forall|c: int, x: u64| #[trigger]
                    self.holds_id(c, x) && self.deleted@.contains(x) implies pre.holds_id(c, x) by {
                    assert(st.holds_id(c, x));
                }
            }
            match r {
                Ok(_) => {},
                Err(fault) => {
                    proof {
                        assert(self.ran_out_dealing(&st, held(entries@), i as int, b as int));
                    }
                    return Err(fault);
                },
            }
            i = i + 1;
        }
        Ok(())
    }

    proof fn lemma_more_postings(&self)
        requires
            self.wf(),
            self.cid_block@.len() > 0,
        ensures
            self.has_postings(),
    {
        broadcast use vstd::std_specs::hash::group_hash_axioms;

        let dom = self.cid_block@.dom();
        assert(dom.finite());
        if forall|cid: u64| !dom.contains(cid) {
            assert(dom =~= Set::empty());
        }
        let cid = choose|cid: u64| dom.contains(cid);
        assert(self.cid_block@.contains_key(cid));
        assert(self.is_posting(self.cid_block@[cid] as int));
    }

    /// Looks after one block: merges a small posting into others, and drops the entries of
    /// deleted vectors.
    #[verifier::rlimit(40)]
    fn tend(&mut self, b: u32) -> (r: Result<(), DiskAnnError>)
        requires
            old(self).wf(),
            old(self).is_small(),
            b < old(self).block_cid@.len(),
        ensures
            final(self).marks_writes(&*old(self)),
            final(self).wf(),
            final(self).same_store(&*old(self)),
            old(self).block_cid@.len() <= final(self).block_cid@.len(),
            final(self).no_new_dead(&*old(self)),
            match r {
                Ok(_) => {
                    &&& final(self).tended(&*old(self), b as int)
                    &&& final(self).is_small()
                    &&& forall|x: u64| #[trigger]
                        old(self).is_placed(x) && !old(self).deleted@.contains(x) ==> final(self).is_placed(x)
                    &&& forall|id: u64| #[trigger]
                        final(self).holds_id(b as int, id) ==> !final(self).deleted@.contains(id)
                },
                Err(e) => e == DiskAnnError::IndexError(Fault::OutOfRoom) && final(self).ran_out_tending(&*old(self), b as int),
            },
    {
        broadcast use vstd::std_specs::hash::group_hash_axioms;

        let ghost pre = *self;
        let ghost bb = b as int;
        proof {
            self.lemma_unwritten(&pre);
        }
        if !self.is_live(b) {
            return Ok(());
        }
        let entries = self.live_entries(b);
        if entries.len() < self.cfg.min_posting_size && self.cid_block.len() > 1 {
            self.free_posting(b);
            let ghost st = *self;
            proof {
                st.lemma_more_postings();
                assert forall|c: int, id: u64| #[trigger] st.holds_id(c, id) <==> pre.holds_id(c, id)
                    && c != bb by {
                    if pre.is_posting(c) && c != bb {
                        assert(st.posting(c) == pre.posting(c));
                        assert(st.is_posting(c));
                    }
                }
                assert forall|i: int| 0 <= i < entries@.len() implies !st.is_placed(
                    (#[trigger] entries@[i]).id,
                ) by {
                    let id = entries@[i].id;
                    if st.is_placed(id) {
                        let c = choose|c: int| #[trigger] st.holds_id(c, id);
                        assert(pre.holds_id(bb, id));
                        pre.lemma_one_home(bb, c, id);
                    }
                }
                assert forall|c: int| #[trigger] st.is_posting(c) implies st.posting(c).len()
                    < st.cfg.max_posting_size by {
                    assert(pre.is_posting(c));
                }
            }
            let r = self.scatter(&entries, Ghost(pre.centroid(bb)));
            proof {
                self.lemma_written(&st, &pre);
                assert(st.gave_up(&pre, bb));
                assert(held(entries@).len() == entries@.len());
                assert forall|c: int, x: u64| #[trigger]
                    self.holds_id(c, x) && self.deleted@.contains(x) implies pre.holds_id(c, x)
                    && c != bb by {
                    assert(st.holds_id(c, x));
                }
                if r is Ok {
                    assert forall|x: u64| #[trigger]
                        pre.is_placed(x) && !pre.deleted@.contains(x) implies self.is_placed(x) by {
                        let c = choose|c: int| #[trigger] pre.holds_id(c, x);
                        if c == bb {
                            let i = choose|i: int|
                                0 <= i < entries@.len() && (#[trigger] entries@[i]).id == x;
                            assert(self.is_placed(entries@[i].id));
                        } else {
                            assert(st.holds_id(c, x));
                            assert(st.is_placed(x));
                        }
                    }
                }
            }
            return r;
        }
        if entries.len() != self.postings.len(b as usize) {
            self.purge(b, &entries);
            proof {
                assert forall|c: int| #[trigger] self.is_posting(c) implies self.posting(c).len()
                    < self.cfg.max_posting_size by {
                    assert(pre.is_posting(c));
                    if c == bb {
                        assert(held(entries@).len() == entries@.len());
                    }
                }
            }
        } else {
            proof {
                assert forall|id: u64| #[trigger] self.holds_id(bb, id) implies !self.deleted@.contains(
                    id,
                ) by {
                    let i = choose|i: int|
                        0 <= i < self.posting(bb).len() && (#[trigger] self.posting(bb)[i]).id == id;
                    lemma_without_all(self.posting(bb), self.deleted@, i);
                    assert(held(entries@).len() == entries@.len());
                }
            }
        }
        Ok(())
    }

    /// Drops the entries of deleted vectors, and merges postings with fewer live entries
    /// than `min_posting_size` into others.
    #[verifier::rlimit(40)]
    pub fn gc(&mut self) -> (r: Result<(), DiskAnnError>)
        requires
            old(self).wf(),
            old(self).is_small(),
            old(self).is_complete(),
        ensures
            final(self).marks_writes(&*old(self)),
            final(self).wf(),
            final(self).same_vectors(&*old(self)),
            match r {
                Ok(_) => {
                    &&& final(self).has_collected(&*old(self))
                    &&& final(self).is_small()
                    &&& final(self).is_complete()
                    &&& final(self).is_purged()
                    &&& final(self).graph.delta.vectors@.len() == 0
                    &&& final(self).graph.tombstones@.len() == 0
                },
                Err(e) => {
                    &&& final(self).stopped_collecting(&*old(self), e)
                    &&& final(self).epoch <= old(self).epoch + 1
                },
            },
    {
        let ghost first = *self;
        proof {
            self.lemma_unwritten(&first);
        }
        if self.epoch == u64::MAX {
            return Err(DiskAnnError::IndexError(Fault::OutOfRoom));
        }
        self.begin_epoch();
        let ghost pre = *self;
        proof {
            pre.lemma_rest_same_placed(&first);
            pre.lemma_unwritten(&first);
            pre.lemma_unwritten(&pre);
            assert forall|c: int| #[trigger] pre.is_posting(c) implies pre.posting(c).len()
                < pre.cfg.max_posting_size by {
                assert(first.is_posting(c));
            }
            assert forall|id: u64|
                id < pre.next_id && !pre.deleted@.contains(id) implies #[trigger] pre.is_placed(id) by {
                assert(first.is_placed(id));
            }
        }
        let total: usize = self.block_cid.len();
        let mut b: usize = 0;
        while b < total
            invariant
                b <= total == pre.block_cid@.len() < u32::MAX,
                first == *old(self),
                pre.same_vectors(&first),
                pre.has_begun(&first),
                self.wf(),
                self.is_small(),
                self.is_complete(),
                self.same_store(&pre),
                self.marks_writes(&first),
                self.tended_all(&pre, b as int),
                total <= self.block_cid@.len(),
                forall|c: int, id: u64| #[trigger]
                    self.holds_id(c, id) && self.deleted@.contains(id) ==> b <= c < total,
            decreases total - b,
        {
            let ghost st = *self;
            let r = self.tend(b as u32);
            proof {
                self.lemma_written(&st, &first);
            }
            match r {
                Ok(_) => {},
                Err(e) => {
                    proof {
                        assert(pre.has_begun(&first));
                        assert(self.ran_out_tending(&st, b as int));
                    }
                    return Err(e);
                },
            }
            proof {
                assert forall|id: u64|
                    id < self.next_id && !self.deleted@.contains(
                        id,
                    ) implies #[trigger] self.is_placed(id) by {
                    assert(st.is_placed(id));
                }
                assert forall|c: int, id: u64| #[trigger]
                    self.holds_id(c, id) && self.deleted@.contains(id) implies b + 1 <= c < total by {
                    assert(st.holds_id(c, id));
                }
            }
            assert(self.tended(&st, b as int));
            proof {
                self.lemma_tended(&st, &pre, b + 1);
            }
            b = b + 1;
        }
        let ghost st = *self;
        let r = self.compact_if_dirty();
        proof {
            self.lemma_entries_same(&st);
            self.lemma_unwritten(&st);
            self.lemma_written(&st, &first);
            assert(pre.has_begun(&first));
            if r is Ok {
                assert(self.is_settled(&st));
            }
            assert forall|id: u64|
                id < self.next_id && !self.deleted@.contains(id) implies #[trigger] self.is_placed(
                id,
            ) by {
                assert(st.is_placed(id));
            }
            assert forall|c: int, id: u64| #[trigger] self.holds_id(c, id) implies !self.deleted@.contains(
                id,
            ) by {
                assert(st.holds_id(c, id));
            }
        }
        r
    }
}

/// When nothing was left out, every entry is there.
proof fn lemma_without_all(entries: Seq<Entry>, deleted: Set<u64>, i: int)
    requires
        0 <= i < entries.len(),
        without(entries, deleted, entries.len() as int).len() == entries.len(),
    ensures
        !deleted.contains(entries[i].id),
{
    lemma_without_count(entries, deleted, i, entries.len() as int);
}

proof fn lemma_without_count(entries: Seq<Entry>, deleted: Set<u64>, i: int, upto: int)
    requires
        0 <= i < upto <= entries.len(),
        deleted.contains(entries[i].id) || without(entries, deleted, upto).len() == upto,
    ensures
        deleted.contains(entries[i].id) ==> without(entries, deleted, upto).len() < upto,
    decreases upto,
{
    lemma_without(entries, deleted, upto - 1);
    if deleted.contains(entries[i].id) && i < upto - 1 {
        lemma_without_count(entries, deleted, i, upto - 1);
    }
}

} // verus!
