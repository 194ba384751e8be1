//! Building an index of postings, deleting from it, and what it tells about itself.
use crate::error::DiskAnnError;
use crate::error::Fault;
use crate::incremental::IncrementalConfig;
use crate::incremental::IncrementalDiskANN;
use crate::incremental::QuantizerKind;
use crate::index;
use crate::metric::Distance;
use crate::postings;
use crate::postings::Blocks;
use crate::pq;
use crate::pq::ProductQuantizer;
use crate::quantizer::QuantizerState;
use crate::rabitq;
use crate::rabitq::RaBitQ;
use crate::random;
use crate::spfresh;
use crate::spfresh::SPFresh;
use crate::spfresh::SPFreshConfig;
use crate::sq::F16Quantizer;
use crate::sq::Int8Quantizer;
use std::collections::HashMap;
use std::collections::HashSet;
use vstd::prelude::*;

verus! {

/// Counts of an index.
#[derive(Clone, Copy, Debug)]
pub struct SPFreshStats {
    pub live: usize,
    pub deleted: usize,
    pub postings: usize,
    pub max_posting: usize,
}

/// The set of deleted ids once those of `ids` that were given out are deleted too.
pub open spec fn deleted_with(deleted: Set<u64>, ids: Seq<u64>, next_id: u64) -> Set<u64> {
    Set::new(|id: u64| deleted.contains(id) || (id < next_id && ids.contains(id)))
}

/// There is room for one more among ids below `n` where one of them is missing.
proof fn lemma_one_missing(s: Set<u64>, n: u64, id: u64)
    requires
        s.finite(),
        forall|x: u64| #[trigger] s.contains(x) ==> x < n,
        id < n,
        !s.contains(id),
    ensures
        s.len() < n,
{
    let t = s.insert(id);
    let ints = t.map(|x: u64| x as int);
    vstd::set_lib::lemma_int_range(0, n as int);
    let range = vstd::set_lib::set_int_range(0, n as int);
    assert(ints.subset_of(range));
    vstd::set_lib::lemma_map_size(t, ints, |x: u64| x as int);
    vstd::set_lib::lemma_len_subset(ints, range);
}

impl<'a, D: Distance> SPFresh<'a, D> {
    /// All but the deleted ids is the same.
    pub open spec fn same_but_deleted(&self, other: &Self) -> bool {
        &&& self.same_places(other)
        &&& self.epoch == other.epoch
        &&& self.dirty == other.dirty
        &&& self.write_seq == other.write_seq
        &&& self.synced_id == other.synced_id
    }

    /// Postings, centroids and vectors are the same.
    pub open spec fn same_places(&self, other: &Self) -> bool {
        &&& self.dim == other.dim
        &&& self.cfg == other.cfg
        &&& self.dist == other.dist
        &&& self.quantizer == other.quantizer
        &&& self.graph == other.graph
        &&& self.block_cid == other.block_cid
        &&& self.block_centroid == other.block_centroid
        &&& self.cid_block == other.cid_block
        &&& self.free == other.free
        &&& self.created == other.created
        &&& self.postings == other.postings
        &&& self.raw == other.raw
        &&& self.next_id == other.next_id
    }

    pub(crate) proof fn lemma_same_places(&self, before: &Self)
        requires
            before.wf(),
            self.same_places(before),
            self.stored(),
        ensures
            self.wf(),
            forall|id: u64| #[trigger] self.is_placed(id) == before.is_placed(id),
            before.is_small() ==> self.is_small(),
    {
        self.lemma_routed_same(before);
        assert forall|b: int| #[trigger] self.is_posting(b) implies self.centroid(b).len()
            == self.dim by {
            assert(before.is_posting(b));
        }
        assert forall|i: int| 0 <= i < self.free@.len() implies (#[trigger] self.free@[i]).0
            < self.block_cid@.len() && !self.is_posting(self.free@[i].0 as int) by {
            assert(!before.is_posting(before.free@[i].0 as int));
        }
        assert forall|c: int, i: int| self.is_posting(c) && 0 <= i < self.posting(c).len() implies {
            &&& (#[trigger] self.posting(c)[i]).id < self.next_id
            &&& self.posting(c)[i].code == self.code_for(
                self.raw_at(self.posting(c)[i].id as int),
                self.centroid(c),
            )
        } by {
            assert(before.is_posting(c));
            assert(before.posting(c)[i].id < before.next_id);
        }
        assert forall|c: int, i: int, d: int, j: int|
            self.is_posting(c) && self.is_posting(d) && 0 <= i < self.posting(c).len() && 0 <= j
                < self.posting(d).len() && (#[trigger] self.posting(c)[i]).id == (
            #[trigger] self.posting(d)[j]).id implies c == d && i == j by {
            assert(before.is_posting(c) && before.is_posting(d));
            assert(before.posting(c)[i].id == before.posting(d)[j].id);
        }
        assert forall|id: u64| #[trigger] self.is_placed(id) == before.is_placed(id) by {
            if self.is_placed(id) {
                let c = choose|c: int| #[trigger] self.holds_id(c, id);
                let i = choose|i: int|
                    0 <= i < self.posting(c).len() && (#[trigger] self.posting(c)[i]).id == id;
                assert(before.posting(c)[i].id == id);
                assert(before.holds_id(c, id));
            }
            if before.is_placed(id) {
                let c = choose|c: int| #[trigger] before.holds_id(c, id);
                let i = choose|i: int|
                    0 <= i < before.posting(c).len() && (#[trigger] before.posting(c)[i]).id == id;
                assert(self.posting(c)[i].id == id);
                assert(self.holds_id(c, id));
            }
        }
        if before.is_small() {
            assert forall|c: int| #[trigger] self.is_posting(c) implies self.posting(c).len()
                < self.cfg.max_posting_size by {
                assert(before.is_posting(c));
            }
        }
    }

    /// Deletes vectors. Their entries stay until their postings are rewritten. Ids that
    /// were not given out are passed over.
    pub fn delete(&mut self, ids: &[u64])
        requires
            old(self).wf(),
        ensures
            final(self).wf(),
            final(self).same_but_deleted(&*old(self)),
            final(self).deleted@ == deleted_with(old(self).deleted@, ids@, old(self).next_id),
            final(self).live == final(self).next_id - final(self).deleted@.len(),
            old(self).is_small() ==> final(self).is_small(),
            old(self).is_complete() ==> final(self).is_complete(),
    {
        broadcast use vstd::std_specs::hash::group_hash_axioms;

        let ghost pre = *self;
        let n: usize = ids.len();
        let mut i: usize = 0;
        assert(self.deleted@ =~= deleted_with(pre.deleted@, ids@.take(0), pre.next_id));
        while i < n
            invariant
                i <= n == ids@.len(),
                self.same_but_deleted(&pre),
                self.stored(),
                self.deleted@ == deleted_with(pre.deleted@, ids@.take(i as int), pre.next_id),
            decreases n - i,
        {
            broadcast use vstd::std_specs::hash::group_hash_axioms;

            let id: u64 = ids[i];
            let ghost was = self.deleted@;
            proof {
                let a = ids@.take(i as int);
                let b = ids@.take(i + 1);
                assert(b =~= a.push(id));
                assert forall|x: u64| #[trigger] b.contains(x) <==> a.contains(x) || x == id by {
                    if a.contains(x) {
                        let m = choose|m: int| 0 <= m < a.len() && a[m] == x;
                        assert(b[m] == x);
                    }
                    assert(b[i as int] == id);
                }
            }
            if id < self.next_id && self.deleted.insert(id) {
                proof {
                    lemma_one_missing(was, self.next_id, id);
                }
                self.live = self.live - 1;
            }
            proof {
                assert(self.deleted@ =~= deleted_with(
                    pre.deleted@,
                    ids@.take(i + 1),
                    pre.next_id,
                ));
            }
            i = i + 1;
        }
        proof {
            assert(ids@.take(n as int) =~= ids@);
            self.lemma_same_places(&pre);
            if pre.is_complete() {
                assert forall|id: u64|
                    id < self.next_id && !self.deleted@.contains(id) implies #[trigger] self.is_placed(
                    id) by {
                    assert(pre.is_placed(id));
                }
            }
        }
    }

    /// Whether an id was deleted.
    pub fn is_deleted(&self, id: u64) -> (r: bool)
        ensures
            r == self.deleted@.contains(id),
    {
        broadcast use vstd::std_specs::hash::group_hash_axioms;

        self.deleted.contains(&id)
    }

    /// The vector with an id, unless it was deleted.
    pub fn get_vector(&self, id: u64) -> (r: Option<Vec<u32>>)
        requires
            self.wf(),
        ensures
            match r {
                Some(v) => id < self.next_id && !self.deleted@.contains(id) && v@ == self.raw_at(
                    id as int,
                ),
                None => id >= self.next_id || self.deleted@.contains(id),
            },
    {
        broadcast use vstd::std_specs::hash::group_hash_axioms;

        if id < self.next_id && !self.deleted.contains(&id) {
            let mut v: Vec<u32> = Vec::new();
            pq::push_all(&mut v, self.raw(id));
            assert(v@ =~= self.raw_at(id as int));
            Some(v)
        } else {
            None
        }
    }

    /// Components of the vectors.
    pub fn dim(&self) -> (r: usize)
        ensures
            r == self.dim,
    {
        self.dim
    }

    /// The most entries in one of the first `upto` blocks that hold postings.
    pub open spec fn largest(&self, upto: int) -> int
        decreases upto,
    {
        if upto <= 0 {
            0
        } else {
            let before = self.largest(upto - 1);
            if self.is_posting(upto - 1) && self.posting(upto - 1).len() > before {
                self.posting(upto - 1).len() as int
            } else {
                before
            }
        }
    }

    /// Counts of vectors and postings.
    pub fn stats(&self) -> (r: SPFreshStats)
        requires
            self.wf(),
        ensures
            r.live == self.live,
            r.deleted == self.deleted@.len(),
            r.postings == self.cid_block@.len(),
            r.max_posting == self.largest(self.block_cid@.len() as int),
    {
        broadcast use vstd::std_specs::hash::group_hash_axioms;

        let n: usize = self.block_cid.len();
        let mut most: usize = 0;
        let mut b: usize = 0;
        while b < n
            invariant
                b <= n == self.block_cid@.len(),
                self.wf(),
                most == self.largest(b as int),
            decreases n - b,
        {
            if self.is_live(b as u32) {
                let len: usize = self.postings.len(b);
                if len > most {
                    most = len;
                }
            }
            b = b + 1;
        }
        SPFreshStats {
            live: self.live,
            deleted: self.deleted.len(),
            postings: self.cid_block.len(),
            max_posting: most,
        }
    }
}

/// What a quantizer of some kind is trained to for an index of postings.
pub open spec fn trained_for<D: Distance>(
    kind: QuantizerKind,
    dist: D,
    vectors: Seq<Vec<u32>>,
    r: Result<QuantizerState, DiskAnnError>,
) -> bool {
    match kind {
        QuantizerKind::F16 | QuantizerKind::PQ(_) => kind.trained(dist, vectors, r),
        _ => match rabitq::training_shape_fault(vectors) {
            Some(fault) => r is Err && r->Err_0 == DiskAnnError::IndexError(fault),
            None => kind.trained(dist, vectors, r),
        },
    }
}

/// A quantizer of this kind can be trained on the vectors.
pub open spec fn can_train_for(kind: QuantizerKind, vectors: Seq<Vec<u32>>) -> bool {
    &&& kind.can_train(vectors)
    &&& kind matches QuantizerKind::PQ(config) ==> pq::can_cut(vectors, config)
}

fn train<D: Distance>(kind: QuantizerKind, dist: D, vectors: &Vec<Vec<u32>>) -> (r: Result<
    QuantizerState,
    DiskAnnError,
>)
    requires
        vectors@.len() > 0,
        can_train_for(kind, vectors@),
    ensures
        trained_for(kind, dist, vectors@, r),
        r matches Ok(q) ==> q.wf() && q.dim_of() == vectors@[0]@.len(),
{
    match kind {
        QuantizerKind::F16 => Ok(QuantizerState::F16(F16Quantizer::new(vectors[0].len()))),
        QuantizerKind::Int8 => match Int8Quantizer::train(dist, vectors) {
            Ok(q) => Ok(QuantizerState::Int8(q)),
            Err(e) => Err(e),
        },
        QuantizerKind::PQ(config) => match ProductQuantizer::train(dist, vectors, config) {
            Ok(q) => {
                let ghost sample = choose|sample: Seq<usize>| #[trigger]
                    pq::is_trained(&q, dist, vectors@, config, sample);
                let r: Result<QuantizerState, DiskAnnError> = Ok(QuantizerState::PQ(q));
                assert(pq::is_trained(&r->Ok_0->PQ_0, dist, vectors@, config, sample));
                r
            },
            Err(e) => Err(e),
        },
        QuantizerKind::RaBitQ => match RaBitQ::train(dist, vectors) {
            Ok(q) => Ok(QuantizerState::RaBitQ(q)),
            Err(e) => Err(e),
        },
    }
}

/// Vectors of which one does not have `dim` components have a first such.
proof fn lemma_mismatch(vectors: Seq<Vec<u32>>, dim: int, i: int, j: int)
    requires
        0 <= i <= j < vectors.len(),
        vectors[j]@.len() != dim,
    ensures
        index::first_mismatch(vectors, dim, i) is Some,
    decreases j - i,
{
    if i < j {
        lemma_mismatch(vectors, dim, i + 1, j);
    }
}

/// A configuration as an index takes it: a posting holds two entries at least.
pub open spec fn raised(cfg: SPFreshConfig) -> SPFreshConfig {
    SPFreshConfig {
        max_posting_size: if cfg.max_posting_size < 2 {
            2
        } else {
            cfg.max_posting_size
        },
        ..cfg
    }
}

/// How many postings an index of `n` vectors starts with.
pub open spec fn starting_postings(cfg: SPFreshConfig, n: int) -> int {
    let half = raised(cfg).max_posting_size as int / 2;
    if n / half < 1 {
        1
    } else {
        n / half
    }
}

fn first_postings(cfg: SPFreshConfig, n: usize) -> (k: usize)
    ensures
        k == starting_postings(cfg, n as int),
        k > 0,
{
    let half: usize = if cfg.max_posting_size < 2 {
        1
    } else {
        cfg.max_posting_size / 2
    };
    if n / half < 1 {
        1
    } else {
        n / half
    }
}

/// Blocks for codes of this size can be told in machine words.
pub open spec fn block_fits(cfg: SPFreshConfig, code: int) -> bool {
    postings::block_size(2 * raised(cfg).max_posting_size, code) <= usize::MAX
}

fn check_block(cfg: SPFreshConfig, code: usize) -> (r: bool)
    requires
        spfresh::is_sound(&raised(cfg)),
    ensures
        r == block_fits(cfg, code as int),
{
    let max: usize = if cfg.max_posting_size < 2 {
        2
    } else {
        cfg.max_posting_size
    };
    proof {
        let capacity = 2 * max;
        assert(0 <= capacity * (8 + code)) by (nonlinear_arith)
            requires
                0 <= capacity,
                0 <= code,
        ;
        assert(capacity * (8 + code) >= 8 + code) by (nonlinear_arith)
            requires
                1 <= capacity,
                0 <= code,
        ;
    }
    match code.checked_add(8) {
        Some(entry) => match (2 * max).checked_mul(entry) {
            Some(all) => all.checked_add(4).is_some(),
            None => false,
        },
        None => false,
    }
}

impl<'a, D: Distance> SPFresh<'a, D> {
    /// An index that holds nothing.
    pub open spec fn is_blank(&self) -> bool {
        &&& self.next_id == 0
        &&& self.live == 0
        &&& self.deleted@ == Set::<u64>::empty()
        &&& self.synced_id == 0
        &&& self.epoch == 1
    }

    /// There were no postings yet: no block was used, and the graph is empty.
    pub open spec fn is_unused(&self) -> bool {
        &&& self.block_cid@.len() == 0
        &&& self.free@.len() == 0
        &&& self.created@.len() == 0
        &&& self.dirty@ == Map::<u32, u64>::empty()
        &&& self.write_seq == 0
        &&& self.graph.base is None
        &&& self.graph.delta.vectors@.len() == 0
        &&& self.graph.tombstones@ == Set::<u64>::empty()
    }

    /// An index without postings.
    fn blank(dim: usize, cfg: SPFreshConfig, dist: D, quantizer: Option<QuantizerState>) -> (r: Self)
        requires
            spfresh::is_sound(&raised(cfg)),
            quantizer matches Some(q) ==> q.wf() && q.dim_of() == dim,
            quantizer is None ==> 4 * dim <= usize::MAX,
            block_fits(cfg, spfresh::code_bytes(&quantizer, dim as int)),
        ensures
            r.wf(),
            r.is_blank(),
            r.dim == dim,
            r.cfg == raised(cfg),
            r.dist == dist,
            r.quantizer == quantizer,
            forall|c: int| !#[trigger] r.is_posting(c),
            r.is_unused(),
    {
        broadcast use vstd::std_specs::hash::group_hash_axioms;

        let mut cfg = cfg;
        if cfg.max_posting_size < 2 {
            cfg.max_posting_size = 2;
        }
        let config = IncrementalConfig::default();
        let graph = IncrementalDiskANN::new_empty(dim, dist, config);
        let size: usize = match &quantizer {
            Some(q) => q.code_size(),
            None => 4 * dim,
        };
        let r = SPFresh {
            dim,
            cfg,
            dist,
            quantizer,
            graph,
            block_cid: Vec::new(),
            block_centroid: Vec::new(),
            cid_block: HashMap::new(),
            free: Vec::new(),
            created: Vec::new(),
            epoch: 1,
            dirty: HashMap::new(),
            write_seq: 0,
            synced_id: 0,
            postings: Blocks::new(2 * cfg.max_posting_size, size),
            raw: Vec::new(),
            next_id: 0,
            deleted: HashSet::new(),
            live: 0,
        };
        assert(r.dirty@ =~= Map::<u32, u64>::empty());
        r
    }

    /// What is wrong with vectors that an index is to be built of, where they have
    /// different lengths: one that was to be a centroid, or the first that was to be
    /// inserted, does not have `dim` components.
    pub open spec fn is_build_fault(vectors: Seq<Vec<u32>>, fault: Fault) -> bool {
        let dim = vectors[0]@.len() as usize;
        match index::first_mismatch(vectors, dim as int, 0) {
            Some(i) => {
                ||| fault == Fault::InsertedDimension {
                    found: vectors[i]@.len() as usize,
                    expected: dim,
                }
                ||| exists|j: int|
                    0 <= j < vectors.len() && (#[trigger] vectors[j])@.len() != dim && fault
                        == Fault::AddedDimension {
                        index: 0,
                        found: vectors[j]@.len() as usize,
                        expected: dim,
                    }
            },
            None => false,
        }
    }

    /// An index over these vectors, none of which was deleted.
    pub open spec fn is_built(
        &self,
        vectors: Seq<Vec<u32>>,
        dist: D,
        cfg: SPFreshConfig,
        quantizer: Option<QuantizerState>,
    ) -> bool {
        &&& self.dim == vectors[0]@.len()
        &&& self.cfg == raised(cfg)
        &&& self.dist == dist
        &&& self.quantizer == quantizer
        &&& self.next_id == vectors.len()
        &&& self.live == vectors.len()
        &&& self.deleted@ == Set::<u64>::empty()
        &&& self.synced_id == 0
        &&& forall|i: int|
            0 <= i < vectors.len() ==> self.raw_at(i) == (#[trigger] vectors[i])@
    }

    /// Empty postings were added, one after the other, about the vectors at `picks`.
    pub open spec fn opened_at(
        &self,
        start: &Self,
        vectors: Seq<Vec<u32>>,
        picks: Seq<usize>,
    ) -> bool
        decreases picks.len(),
    {
        if picks.len() == 0 {
            *self == *start
        } else {
            exists|mid: Self, b: int|
                mid.opened_at(start, vectors, picks.drop_last()) && #[trigger] self.opened_posting(
                    &mid,
                    b,
                    vectors[picks.last() as int]@,
                )
        }
    }

    /// The postings are empty: `blocks[i]` is about vector `picks[i]`, and there are no
    /// others, nor other blocks or nodes of the graph.
    pub open spec fn is_seeded(
        &self,
        vectors: Seq<Vec<u32>>,
        picks: Seq<usize>,
        blocks: Seq<u32>,
    ) -> bool {
        &&& exists|start: Self| #[trigger]
            self.opened_at(&start, vectors, picks) && start.is_unused()
        &&& self.block_cid@.len() <= picks.len()
        &&& self.graph.total() <= picks.len()
        &&& picks.no_duplicates()
        &&& blocks.no_duplicates()
        &&& blocks.len() == picks.len()
        &&& forall|i: int|
            0 <= i < picks.len() ==> (#[trigger] picks[i]) < vectors.len() && self.is_posting(
                blocks[i] as int,
            ) && self.centroid(blocks[i] as int) == vectors[picks[i] as int]@
        &&& forall|c: int| #[trigger]
            self.is_posting(c) ==> self.posting(c).len() == 0 && blocks.contains(c as u32)
    }

    /// From an index with empty postings about some of the vectors, all of them were
    /// inserted.
    pub open spec fn grew(
        &self,
        seeds: &Self,
        vectors: Seq<Vec<u32>>,
        picks: Seq<usize>,
        blocks: Seq<u32>,
    ) -> bool {
        &&& seeds.is_blank()
        &&& seeds.is_seeded(vectors, picks, blocks)
        &&& picks.len() == starting_postings(self.cfg, vectors.len() as int)
        &&& self.has_inserted(seeds, vectors)
    }

    /// An index for these vectors that holds none of them, but empty postings about some.
    pub open spec fn has_started(
        &self,
        vectors: Seq<Vec<u32>>,
        dist: D,
        cfg: SPFreshConfig,
        quantizer: Option<QuantizerState>,
        picks: Seq<usize>,
        blocks: Seq<u32>,
    ) -> bool {
        &&& self.wf()
        &&& self.is_blank()
        &&& self.dim == vectors[0]@.len()
        &&& self.cfg == raised(cfg)
        &&& self.dist == dist
        &&& self.quantizer == quantizer
        &&& self.is_seeded(vectors, picks, blocks)
        &&& picks.len() <= starting_postings(self.cfg, vectors.len() as int)
    }

    /// Building failed at this index: there was no room for the next posting to start
    /// from, or, all of these being there, inserting the vectors failed.
    pub open spec fn stopped_building(
        &self,
        seeds: &Self,
        vectors: Seq<Vec<u32>>,
        picks: Seq<usize>,
        e: DiskAnnError,
    ) -> bool {
        if picks.len() < starting_postings(seeds.cfg, vectors.len() as int) {
            &&& e == DiskAnnError::IndexError(Fault::OutOfRoom)
            &&& *self == *seeds
            &&& !seeds.has_room(2)
        } else {
            self.stopped_inserting(seeds, vectors, e)
        }
    }

    /// Building an index with a trained quantizer, or without one, gives `r`.
    pub open spec fn built(
        vectors: Seq<Vec<u32>>,
        dist: D,
        cfg: SPFreshConfig,
        quantizer: Option<QuantizerState>,
        r: Result<Self, DiskAnnError>,
    ) -> bool {
        match r {
            Ok(s) => {
                &&& index::first_mismatch(vectors, vectors[0]@.len() as int, 0) is None
                &&& s.wf()
                &&& s.is_built(vectors, dist, cfg, quantizer)
                &&& exists|seeds: Self, picks: Seq<usize>, blocks: Seq<u32>| #[trigger]
                    s.grew(&seeds, vectors, picks, blocks)
                &&& s.is_small()
                &&& s.is_complete()
                &&& s.graph.delta.vectors@.len() == 0
                &&& s.graph.tombstones@.len() == 0
            },
            Err(e) => {
                ||| e matches DiskAnnError::IndexError(fault) && Self::is_build_fault(vectors, fault)
                ||| exists|s: Self, seeds: Self, picks: Seq<usize>, blocks: Seq<u32>|
                    #![trigger s.stopped_building(&seeds, vectors, picks, e), seeds.is_seeded(vectors, picks, blocks)]
                    seeds.has_started(vectors, dist, cfg, quantizer, picks, blocks)
                        && s.stopped_building(&seeds, vectors, picks, e)
                ||| e == DiskAnnError::IndexError(Fault::OutOfRoom) && !block_fits(
                    cfg,
                    spfresh::code_bytes(&quantizer, vectors[0]@.len() as int),
                )
            },
        }
    }

    /// Starts postings at some of the vectors.
    #[verifier::rlimit(40)]
    fn seed(&mut self, vectors: &Vec<Vec<u32>>, k: usize) -> (r: Result<(), DiskAnnError>)
        requires
            old(self).wf(),
            old(self).is_blank(),
            forall|c: int| !#[trigger] old(self).is_posting(c),
            old(self).is_unused(),
            vectors@.len() > 0,
            vectors@[0]@.len() == old(self).dim,
            k == starting_postings(old(self).cfg, vectors@.len() as int),
        ensures
            final(self).wf(),
            final(self).same_store(&*old(self)),
            final(self).is_small(),
            match r {
                Ok(_) => exists|picks: Seq<usize>, blocks: Seq<u32>| #[trigger]
                    final(self).is_seeded(vectors@, picks, blocks) && picks.len() == k,
                Err(e) => {
                    ||| e matches DiskAnnError::IndexError(fault) && Self::is_build_fault(
                        vectors@,
                        fault,
                    )
                    ||| e == DiskAnnError::IndexError(Fault::OutOfRoom) && !final(self).has_room(2)
                        && exists|picks: Seq<usize>, blocks: Seq<u32>| #[trigger]
                        final(self).is_seeded(vectors@, picks, blocks) && picks.len() < k
                },
            },
    {
        let ghost pre = *self;
        let mut all: Vec<usize> = Vec::new();
        let n: usize = vectors.len();
        let mut i: usize = 0;
        while i < n
            invariant
                i <= n == vectors@.len(),
                all@.len() == i,
                forall|j: int| 0 <= j < i ==> #[trigger] all@[j] == j,
            decreases n - i,
        {
            all.push(i);
            i = i + 1;
        }
        let picks = random::choose_some(&all, k);
        let count: usize = picks.len();
        let ghost mut blocks: Seq<u32> = Seq::empty();
        proof {
            let half = old(self).cfg.max_posting_size as int / 2;
            assert(n as int / half <= n) by (nonlinear_arith)
                requires
                    half >= 1,
                    n >= 0,
            ;
        }
        let mut p: usize = 0;
        while p < count
            invariant
                p <= count == picks@.len(),
                count <= k,
                n == vectors@.len(),
                all@.len() == n,
                forall|j: int| 0 <= j < n ==> #[trigger] all@[j] == j,
                forall|j: int| 0 <= j < picks@.len() ==> all@.contains(#[trigger] picks@[j]),
                n > 0,
                vectors@[0]@.len() == self.dim,
                pre == *old(self),
                pre.is_unused(),
                self.opened_at(&pre, vectors@, picks@.take(p as int)),
                self.wf(),
                self.same_store(&pre),
                picks@.no_duplicates(),
                self.is_seeded(vectors@, picks@.take(p as int), blocks),
            decreases count - p,
        {
            let ghost mid = *self;
            assert(all@.contains(picks@[p as int]));
            let at: usize = picks[p];
            assert(at < n) by {
                let j = choose|j: int| 0 <= j < n && all@[j] == at;
            }
            if vectors[at].len() != self.dim {
                proof {
                    lemma_mismatch(vectors@, self.dim as int, 0, at as int);
                    assert(vectors@[at as int]@.len() != self.dim);
                }
                return Err(
                    DiskAnnError::IndexError(
                        Fault::AddedDimension {
                            index: 0,
                            found: vectors[at].len(),
                            expected: self.dim,
                        },
                    ),
                );
            }
            if !self.check_room(2) {
                assert(picks@.take(p as int).len() < k);
                return Err(DiskAnnError::IndexError(Fault::OutOfRoom));
            }
            proof {
                self.lemma_less_room(2, 1);
            }
            let centroid = vectors[at].clone();
            assert(centroid@ =~= vectors@[at as int]@);
            let b: u32 = self.new_posting(centroid);
            proof {
                let was = blocks;
                blocks = blocks.push(b);
                assert forall|c: int| #[trigger] self.is_posting(c) implies self.posting(c).len()
                    == 0 && blocks.contains(c as u32) by {
                    if mid.is_posting(c) {
                        let k = choose|k: int| 0 <= k < was.len() && was[k] == c as u32;
                        assert(blocks[k] == c as u32);
                    } else {
                        assert(set![b as int].contains(c));
                        assert(blocks[was.len() as int] == b);
                    }
                }
                let done = picks@.take(p as int);
                let more = picks@.take(p + 1);
                assert(more.drop_last() =~= done);
                assert(self.opened_posting(&mid, b as int, vectors@[more.last() as int]@));
                assert(self.opened_at(&pre, vectors@, more));
                assert(done.len() == was.len());
                assert forall|i: int| 0 <= i < more.len() implies (#[trigger] more[i])
                    < vectors@.len() && self.is_posting(blocks[i] as int) && self.centroid(
                    blocks[i] as int,
                ) == vectors@[more[i] as int]@ && (i < p ==> blocks[i] != b) by {
                    if i < p {
                        assert(done[i] == more[i]);
                        assert(mid.is_posting(was[i] as int));
                    }
                }
                assert(blocks.no_duplicates()) by {
                    assert forall|i: int, j: int|
                        0 <= i < blocks.len() && 0 <= j < blocks.len() && i != j implies blocks[i]
                        != blocks[j] by {
                        if i < p && j < p {
                            assert(was[i] != was[j]);
                        } else if i < p {
                            assert(more[i] == done[i]);
                        } else {
                            assert(more[j] == done[j]);
                        }
                    }
                }
            }
            p = p + 1;
        }
        assert(picks@.take(count as int) =~= picks@);
        Ok(())
    }

    /// Builds an index.
    pub fn build(
        vectors: &Vec<Vec<u32>>,
        dist: D,
        cfg: SPFreshConfig,
        quantizer: Option<QuantizerKind>,
    ) -> (r: Result<Self, DiskAnnError>)
        requires
            spfresh::is_sound(&raised(cfg)),
            quantizer matches Some(kind) ==> can_train_for(kind, vectors@),
            vectors@.len() > 0 ==> {
                &&& vectors@.len() * vectors@[0]@.len() <= usize::MAX
                &&& 4 * vectors@[0]@.len() <= usize::MAX
            },
        ensures
            vectors@.len() == 0 ==> r is Err && r->Err_0 == DiskAnnError::IndexError(
                Fault::NoVectors,
            ),
            vectors@.len() > 0 ==> match quantizer {
                None => Self::built(vectors@, dist, cfg, None, r),
                Some(kind) => exists|trained: Result<QuantizerState, DiskAnnError>| #[trigger]
                    trained_for(kind, dist, vectors@, trained) && match trained {
                        Ok(q) => Self::built(vectors@, dist, cfg, Some(q), r),
                        Err(e) => r is Err && r->Err_0 == e,
                    },
            },
    {
        if vectors.len() == 0 {
            return Err(DiskAnnError::IndexError(Fault::NoVectors));
        }
        match quantizer {
            None => Self::build_with(vectors, dist, cfg, None),
            Some(kind) => match train(kind, dist, vectors) {
                Ok(q) => {
                    let ghost trained: Result<QuantizerState, DiskAnnError> = Ok(q);
                    let r = Self::build_with(vectors, dist, cfg, Some(q));
                    assert(trained_for(kind, dist, vectors@, trained));
                    r
                },
                Err(e) => {
                    let ghost trained: Result<QuantizerState, DiskAnnError> = Err(e);
                    assert(trained_for(kind, dist, vectors@, trained));
                    Err(e)
                },
            },
        }
    }

    fn build_with(
        vectors: &Vec<Vec<u32>>,
        dist: D,
        cfg: SPFreshConfig,
        quantizer: Option<QuantizerState>,
    ) -> (r: Result<Self, DiskAnnError>)
        requires
            vectors@.len() > 0,
            spfresh::is_sound(&raised(cfg)),
            quantizer matches Some(q) ==> q.wf() && q.dim_of() == vectors@[0]@.len(),
            vectors@.len() * vectors@[0]@.len() <= usize::MAX,
            4 * vectors@[0]@.len() <= usize::MAX,
        ensures
            Self::built(vectors@, dist, cfg, quantizer, r),
    {
        let dim: usize = vectors[0].len();
        let code: usize = match &quantizer {
            Some(q) => q.code_size(),
            None => 4 * dim,
        };
        if !check_block(cfg, code) {
            return Err(DiskAnnError::IndexError(Fault::OutOfRoom));
        }
        let mut s = Self::blank(dim, cfg, dist, quantizer);
        let k: usize = first_postings(cfg, vectors.len());
        match s.seed(vectors, k) {
            Ok(_) => {},
            Err(e) => {
                proof {
                    if !(e matches DiskAnnError::IndexError(fault) && Self::is_build_fault(
                        vectors@,
                        fault,
                    )) {
                        let (picks, blocks) = choose|picks: Seq<usize>, blocks: Seq<u32>| #[trigger]
                            s.is_seeded(vectors@, picks, blocks) && picks.len() < k;
                        assert(s.has_started(vectors@, dist, cfg, quantizer, picks, blocks));
                        assert(s.stopped_building(&s, vectors@, picks, e));
                    }
                }
                return Err(e);
            },
        }
        let ghost seeds = s;
        let ghost (picks, blocks) = choose|picks: Seq<usize>, blocks: Seq<u32>| #[trigger]
            seeds.is_seeded(vectors@, picks, blocks) && picks.len() == k;
        match s.insert(vectors) {
            Ok(_) => {
                assert(s.grew(&seeds, vectors@, picks, blocks));
                Ok(s)
            },
            Err(e) => {
                proof {
                    if seeds.inserted_fault(vectors@) is None {
                        assert(seeds.has_started(vectors@, dist, cfg, quantizer, picks, blocks));
                        assert(s.stopped_building(&seeds, vectors@, picks, e));
                    }
                }
                Err(e)
            },
        }
    }
}

} // verus!
