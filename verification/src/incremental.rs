//! An index that vectors can be added to and deleted from.
use crate::beam;
use crate::beam::BeamSearchConfig;
use crate::beam::SearchSpace;
use crate::beam::Trace;
use crate::beam::beam_search;
use crate::candidate;
use crate::candidate::Candidate;
use crate::candidate::Hit;
use crate::candidate::take_lowest;
use crate::delta;
use crate::delta::DELTA_ID_OFFSET;
use crate::delta::DeltaLayer;
use crate::error::DiskAnnError;
use crate::error::Fault;
use crate::filter::Filter;
use crate::filtered;
use crate::index;
use crate::index::DiskANN;
use crate::index::DiskAnnParams;
use crate::index::Metadata;
use crate::kmeans;
use crate::metric::Distance;
use crate::pq;
use crate::pq::PQConfig;
use crate::pq::ProductQuantizer;
use crate::quantized;
use crate::quantizer;
use crate::quantizer::Prepared;
use crate::quantizer::QuantizerState;
use crate::rabitq;
use crate::rabitq::RaBitQ;
use crate::sq;
use crate::sq::F16Quantizer;
use crate::sq::Int8Quantizer;
use crate::word;
use std::collections::HashSet;
use vstd::prelude::*;

verus! {

/// When compaction is due, and how added vectors are linked.
#[derive(Clone, Copy, Debug)]
pub struct IncrementalConfig {
    /// From this many added vectors on, compaction is due.
    pub delta_threshold: usize,
    /// From this share of deleted vectors on, compaction is due.
    pub tombstone_ratio_threshold: u32,
    pub delta_params: DiskAnnParams,
}

/// The pattern of 0.1.
pub const DEFAULT_TOMBSTONE_RATIO: u32 = 0x3dcc_cccd;

impl Default for IncrementalConfig {
    fn default() -> (r: Self)
        ensures
            is_default(r),
    {
        IncrementalConfig {
            delta_threshold: 10_000,
            tombstone_ratio_threshold: DEFAULT_TOMBSTONE_RATIO,
            delta_params: DiskAnnParams {
                max_degree: 32,
                build_beam_width: 64,
                alpha: delta::DELTA_ALPHA,
            },
        }
    }
}

/// A base index, the vectors added since it was built, and what was deleted.
pub struct IncrementalDiskANN<'a, D: Distance> {
    pub base: Option<DiskANN<'a, D>>,
    pub delta: DeltaLayer,
    /// The ids that were deleted.
    pub tombstones: HashSet<u64>,
    pub dist: D,
    pub config: IncrementalConfig,
    pub dim: usize,
    /// The labels of the vectors of the base, where there are any.
    pub base_labels: Option<Vec<Vec<u64>>>,
    pub delta_labels: Vec<Vec<u64>>,
    pub num_label_fields: usize,
    pub quantizer: Option<QuantizerState>,
    /// The codes of the vectors of the base, one after the other.
    pub base_codes: Option<Vec<u8>>,
    pub code_size: usize,
    pub rerank_size: usize,
}

impl<'a, D: Distance> IncrementalDiskANN<'a, D> {
    /// Vectors of the base.
    pub open spec fn base_count(&self) -> int {
        match self.base {
            Some(b) => b.num_vectors as int,
            None => 0,
        }
    }

    /// Vectors in all, deleted ones among them. They have positions from 0 on: those of
    /// the base first.
    pub open spec fn total(&self) -> int {
        self.base_count() + self.delta.vectors@.len()
    }

    /// The id of the vector at a position.
    pub open spec fn global(&self, pos: int) -> u64 {
        if pos < self.base_count() {
            pos as u64
        } else {
            (DELTA_ID_OFFSET + (pos - self.base_count())) as u64
        }
    }

    /// The vector at a position.
    pub open spec fn vector_at(&self, pos: int) -> Seq<u32> {
        if pos < self.base_count() {
            self.base->Some_0.vector(pos)
        } else {
            self.delta.vectors@[pos - self.base_count()]@
        }
    }

    /// The distance of the vector at a position from a query.
    pub open spec fn exact(&self, query: Seq<u32>, pos: int) -> u32 {
        if pos < self.base_count() {
            self.base->Some_0.dist.eval_spec(query, self.vector_at(pos))
        } else {
            self.dist.eval_spec(query, self.vector_at(pos))
        }
    }

    /// The positions that a position leads to.
    pub open spec fn links_at(&self, pos: int) -> Seq<u32> {
        if pos < self.base_count() {
            self.base->Some_0.links(pos)
        } else {
            self.delta.graph@[pos - self.base_count()]@.map_values(
                |nb: u32| (nb + self.base_count()) as u32,
            )
        }
    }

    /// The labels at a position, where there are any.
    pub open spec fn label_at(&self, pos: int) -> Option<Seq<u64>> {
        if pos < self.base_count() {
            if self.base_labels is Some && pos < self.base_labels->Some_0@.len() {
                Some(self.base_labels->Some_0@[pos]@)
            } else {
                None
            }
        } else if pos - self.base_count() < self.delta_labels@.len() {
            Some(self.delta_labels@[pos - self.base_count()]@)
        } else {
            None
        }
    }

    /// Whether the vector at a position was not deleted.
    pub open spec fn live_at(&self, pos: int) -> bool {
        !self.tombstones@.contains(self.global(pos))
    }

    /// Whether an id names a vector that was not deleted.
    pub open spec fn is_live(&self, id: u64) -> bool {
        exists|pos: int|
            0 <= pos < self.total() && #[trigger] self.global(pos) == id && self.live_at(pos)
    }

    /// Where searches start: at the medoid of the base, and at the entry point of the
    /// added vectors.
    pub open spec fn starts(&self) -> Seq<u32> {
        let base = match self.base {
            Some(b) => seq![b.medoid_id],
            None => Seq::empty(),
        };
        match self.delta.entry_point {
            Some(e) => base.push((self.base_count() + e) as u32),
            None => base,
        }
    }

    /// The query has the right number of components. Where there is nothing to search, any
    /// has.
    pub open spec fn takes(&self, query: Seq<u32>) -> bool {
        self.starts().len() > 0 ==> query.len() == self.dim
    }

    /// Whether there is anything to search.
    pub fn has_entry(&self) -> (r: bool)
        ensures
            r == (self.starts().len() > 0),
    {
        self.base.is_some() || self.delta.entry_point.is_some()
    }

    /// Whether searches go by codes.
    pub open spec fn by_codes(&self) -> bool {
        self.quantizer is Some && self.base_codes is Some
    }

    /// The quantizer goes with the vectors, and the codes with the base.
    pub open spec fn codes_are_sound(&self) -> bool {
        match self.quantizer {
            Some(q) => {
                &&& q.wf()
                &&& q.dim_of() == self.dim
                &&& q.code_len() == self.code_size
                &&& self.base_codes matches Some(codes) ==> quantizer::holds_codes(
                    &q,
                    codes@,
                    self.base_count(),
                )
            },
            None => true,
        }
    }

    /// The index can be searched.
    pub open spec fn valid(&self) -> bool {
        &&& self.base matches Some(b) ==> b.valid() && b.dim == self.dim
        &&& self.delta.wf(self.dim as int)
        &&& self.total() < u32::MAX
        &&& self.codes_are_sound()
    }

    /// Whether the index can be searched.
    pub fn validate(&self) -> (r: bool)
        ensures
            r == self.valid(),
    {
        let base_count: usize = match &self.base {
            Some(b) => {
                if !b.validate() || b.dim != self.dim {
                    return false;
                }
                b.num_vectors
            },
            None => 0,
        };
        if !self.delta.validate(self.dim) {
            return false;
        }
        if base_count >= u32::MAX as usize || self.delta.vectors.len() >= u32::MAX as usize
            - base_count {
            return false;
        }
        match &self.quantizer {
            Some(q) => {
                if !q.validate() || q.dim() != self.dim || q.code_size() != self.code_size {
                    return false;
                }
                match &self.base_codes {
                    Some(codes) => quantizer::check_codes(q, codes, base_count),
                    None => true,
                }
            },
            None => true,
        }
    }
}

/// An index as one query searches it.
pub struct UnifiedView<'a, 'b, D: Distance> {
    pub index: &'b IncrementalDiskANN<'a, D>,
    pub query: &'b [u32],
    /// What the quantizer prepared, for a search by codes.
    pub prep: Option<&'b Prepared>,
    /// Which labels may be answers, for a filtered search.
    pub filter: Option<&'b Filter>,
}

impl<'a, 'b, D: Distance> UnifiedView<'a, 'b, D> {
    fn base_count(&self) -> (r: usize)
        ensures
            r == self.index.base_count(),
    {
        match &self.index.base {
            Some(b) => b.num_vectors,
            None => 0,
        }
    }

    /// Where searches start.
    pub fn entry_points(&self) -> (r: Vec<u32>)
        requires
            self.index.valid(),
        ensures
            r@ == self.index.starts(),
            forall|i: int| 0 <= i < r@.len() ==> #[trigger] r@[i] < self.index.total(),
    {
        let mut seeds: Vec<u32> = Vec::new();
        match &self.index.base {
            Some(b) => {
                seeds.push(b.medoid_id);
            },
            None => {},
        }
        match self.index.delta.entry_point {
            Some(e) => {
                seeds.push(self.base_count() as u32 + e);
            },
            None => {},
        }
        assert(seeds@ =~= self.index.starts());
        seeds
    }

    /// The id of the vector at a position.
    pub fn to_global_u64(&self, pos: u32) -> (r: u64)
        requires
            self.index.valid(),
            pos < self.index.total(),
        ensures
            r == self.index.global(pos as int),
    {
        let base_count: usize = self.base_count();
        if (pos as usize) < base_count {
            pos as u64
        } else {
            DELTA_ID_OFFSET + (pos as usize - base_count) as u64
        }
    }

    /// The distance from the query, computed from the vector.
    pub fn distance_to(&self, pos: u32) -> (d: u32)
        requires
            self.index.valid(),
            self.query@.len() == self.index.dim,
            pos < self.index.total(),
        ensures
            d == self.index.exact(self.query@, pos as int),
    {
        let base_count: usize = self.base_count();
        if (pos as usize) < base_count {
            match &self.index.base {
                Some(b) => {
                    proof {
                        b.lemma_has(pos as int);
                    }
                    b.distance_to(self.query, pos as usize)
                },
                None => 0,
            }
        } else {
            let local: usize = pos as usize - base_count;
            assert(self.index.delta.vectors@[local as int]@.len() == self.index.dim);
            self.index.dist.eval(self.query, self.index.delta.vectors[local].as_slice())
        }
    }

    fn label_of(&self, pos: u32) -> (r: Option<&Vec<u64>>)
        ensures
            self.index.label_at(pos as int) == match r {
                Some(l) => Some(l@),
                None => None,
            },
    {
        let base_count: usize = self.base_count();
        if (pos as usize) < base_count {
            match &self.index.base_labels {
                Some(labels) => if (pos as usize) < labels.len() {
                    Some(&labels[pos as usize])
                } else {
                    None
                },
                None => None,
            }
        } else {
            let local: usize = pos as usize - base_count;
            if local < self.index.delta_labels.len() {
                Some(&self.index.delta_labels[local])
            } else {
                None
            }
        }
    }
}

impl<'a, 'b, D: Distance> SearchSpace for UnifiedView<'a, 'b, D> {
    open spec fn holds(&self, id: u32) -> bool {
        &&& self.index.valid()
        &&& self.query@.len() == self.index.dim
        &&& id < self.index.total()
        &&& self.prep matches Some(p) ==> self.index.by_codes()
            && self.index.quantizer->Some_0.is_prepared(self.index.dist, self.query@, p)
    }

    open spec fn dist_of(&self, id: u32) -> u32 {
        if self.prep is Some && id < self.index.base_count() {
            let q = self.index.quantizer->Some_0;
            q.distance_of(
                self.index.dist,
                self.query@,
                quantizer::code_at(self.index.base_codes->Some_0@, id as int, q.code_len()),
            )
        } else {
            self.index.exact(self.query@, id as int)
        }
    }

    open spec fn links_of(&self, id: u32) -> Seq<u32> {
        self.index.links_at(id as int)
    }

    open spec fn keeps(&self, id: u32) -> bool {
        &&& self.index.live_at(id as int)
        &&& self.filter matches Some(f) ==> self.index.label_at(id as int) is Some && f.accepts(
            self.index.label_at(id as int)->Some_0,
        )
    }

    open spec fn scaled(&self, dist: u32, factor: u32) -> u32 {
        self.index.dist.product_spec(dist, factor)
    }

    fn distance(&self, id: u32) -> (d: u32) {
        match self.prep {
            Some(prep) => {
                if (id as usize) < self.base_count() {
                    match (&self.index.quantizer, &self.index.base_codes) {
                        (Some(q), Some(codes)) => {
                            proof {
                                pq::lemma_flat_bounds(
                                    id as int,
                                    self.index.base_count(),
                                    self.index.code_size as int,
                                );
                                assert(q.is_code(
                                    quantizer::code_at(codes@, id as int, q.code_len()),
                                ));
                            }
                            let code = quantizer::code_slice(
                                codes,
                                id as usize,
                                self.index.code_size,
                            );
                            return q.distance(self.index.dist, self.query, prep, code);
                        },
                        _ => {},
                    }
                }
                self.distance_to(id)
            },
            None => self.distance_to(id),
        }
    }

    fn neighbors(&self, id: u32) -> (r: Vec<u32>) {
        let base_count: usize = self.base_count();
        if (id as usize) < base_count {
            match &self.index.base {
                Some(b) => {
                    proof {
                        b.lemma_has(id as int);
                    }
                    b.real_neighbors(id)
                },
                None => Vec::new(),
            }
        } else {
            let local: usize = id as usize - base_count;
            let row = &self.index.delta.graph[local];
            let ghost want = self.index.links_at(id as int);
            let mut r: Vec<u32> = Vec::new();
            let mut i: usize = 0;
            while i < row.len()
                invariant
                    i <= row@.len(),
                    self.index.valid(),
                    base_count == self.index.base_count(),
                    0 <= local < self.index.delta.vectors@.len(),
                    row == &self.index.delta.graph@[local as int],
                    want == row@.map_values(|nb: u32| (nb + self.index.base_count()) as u32),
                    r@.len() == i,
                    forall|j: int| 0 <= j < i ==> #[trigger] r@[j] == want[j],
                decreases row@.len() - i,
            {
                assert(self.index.delta.graph@[local as int]@[i as int]
                    < self.index.delta.vectors@.len());
                r.push(row[i] + base_count as u32);
                i = i + 1;
            }
            assert(r@ =~= want);
            r
        }
    }

    fn keep(&self, id: u32) -> (r: bool) {
        broadcast use vstd::std_specs::hash::group_hash_axioms;

        if self.index.tombstones.contains(&self.to_global_u64(id)) {
            return false;
        }
        match self.filter {
            Some(f) => match self.label_of(id) {
                Some(l) => f.matches(l.as_slice()),
                None => false,
            },
            None => true,
        }
    }

    fn scale(&self, dist: u32, factor: u32) -> (r: u32) {
        self.index.dist.product(dist, factor)
    }
}

pub proof fn lemma_view_closed<D: Distance>(view: &UnifiedView<D>)
    ensures
        beam::is_closed(view),
{
    assert forall|id: u32, i: int|
        view.holds(id) && 0 <= i < view.links_of(id).len() implies view.holds(
        #[trigger] view.links_of(id)[i],
    ) by {
        let index = view.index;
        if id < index.base_count() {
            index::links_are_sound(&index.base->Some_0, id as int);
        } else {
            let local = id - index.base_count();
            assert(index.delta.graph@[local]@[i] < index.delta.vectors@.len());
        }
    }
}

/// How a search among deleted vectors is bounded.
pub open spec fn tombstone_bounds(beam_width: int, k: int, tombstones: int) -> BeamSearchConfig {
    if tombstones == 0 {
        beam::unbounded()
    } else {
        let hidden = if tombstones <= beam_width {
            tombstones
        } else {
            beam_width
        };
        let wide = if beam_width * 2 >= k + hidden {
            beam_width * 2
        } else {
            k + hidden
        };
        BeamSearchConfig {
            expanded_beam: Some(wide as usize),
            max_iterations: Some((wide * 2) as usize),
            early_term_factor: Some(filtered::EARLY_STOP),
        }
    }
}

/// The bounds of a search can be told in machine words.
pub open spec fn can_search(beam_width: int, k: int) -> bool {
    beam_width * 4 <= usize::MAX && (k + beam_width) * 2 <= usize::MAX
}

fn tombstone_config(beam_width: usize, k: usize, tombstones: usize) -> (r: BeamSearchConfig)
    requires
        can_search(beam_width as int, k as int),
    ensures
        r == tombstone_bounds(beam_width as int, k as int, tombstones as int),
{
    if tombstones == 0 {
        return BeamSearchConfig::default();
    }
    let hidden: usize = if tombstones <= beam_width {
        tombstones
    } else {
        beam_width
    };
    let wide: usize = if beam_width * 2 >= k + hidden {
        beam_width * 2
    } else {
        k + hidden
    };
    BeamSearchConfig {
        expanded_beam: Some(wide),
        max_iterations: Some(wide * 2),
        early_term_factor: Some(filtered::EARLY_STOP),
    }
}

/// The ids of hits.
pub open spec fn hit_ids(hits: Seq<Hit>) -> Seq<u64> {
    hits.map_values(|h: Hit| h.id)
}

fn hit_ids_of(hits: &Vec<Hit>) -> (r: Vec<u64>)
    ensures
        r@ == hit_ids(hits@),
{
    let mut r: Vec<u64> = Vec::new();
    let mut i: usize = 0;
    while i < hits.len()
        invariant
            i <= hits@.len(),
            r@.len() == i,
            forall|j: int| 0 <= j < i ==> #[trigger] r@[j] == hits@[j].id,
        decreases hits@.len() - i,
    {
        r.push(hits[i].id);
        i = i + 1;
    }
    assert(r@ =~= hit_ids(hits@));
    r
}

impl<'a, D: Distance> IncrementalDiskANN<'a, D> {
    /// Candidates as they are handed out: by id in place of position.
    pub open spec fn hits(&self, found: Seq<Candidate>) -> Seq<Hit> {
        found.map_values(|c: Candidate| Hit { dist: c.dist, id: self.global(c.id as int) })
    }

    /// Candidates with their distances computed from their vectors.
    pub open spec fn rescored(&self, query: Seq<u32>, found: Seq<Candidate>) -> Seq<Candidate> {
        found.map_values(
            |c: Candidate| Candidate { dist: self.exact(query, c.id as int), id: c.id },
        )
    }

    /// What a search returns: what the beam search found, compared again by vectors
    /// where that is asked for.
    pub open spec fn search_result(
        &self,
        query: &[u32],
        k: int,
        beam_width: int,
        prep: Prepared,
        t: Trace,
        found: Seq<Candidate>,
        kept: Seq<Candidate>,
        r: Seq<Hit>,
    ) -> bool {
        if self.starts().len() == 0 {
            r.len() == 0
        } else {
            let wanted = if self.by_codes() {
                quantized::search_k(self.rerank_size as int, k)
            } else {
                k
            };
            let view = UnifiedView {
                index: self,
                query,
                prep: if self.by_codes() {
                    Some(&prep)
                } else {
                    None
                },
                filter: None,
            };
            &&& self.by_codes() ==> self.quantizer->Some_0.is_prepared(self.dist, query@, &prep)
            &&& beam::search_outcome(
                &view,
                self.starts(),
                beam_width,
                wanted,
                tombstone_bounds(beam_width, wanted, self.tombstones@.len() as int),
                t,
                found,
            )
            &&& if self.by_codes() && self.rerank_size > 0 {
                candidate::lowest(self.rescored(query@, found), k, kept)
            } else {
                kept == found
            }
            &&& r == self.hits(kept)
        }
    }

    /// What a filtered search returns when there are labels.
    pub open spec fn filtered_result(
        &self,
        query: &[u32],
        k: int,
        beam_width: int,
        filter: &Filter,
        t: Trace,
        found: Seq<Candidate>,
        r: Seq<Hit>,
    ) -> bool {
        if self.starts().len() == 0 {
            r.len() == 0
        } else {
            let view = UnifiedView { index: self, query, prep: None, filter: Some(filter) };
            &&& beam::search_outcome(
                &view,
                self.starts(),
                beam_width,
                k,
                filtered::filtered_config(beam_width, k),
                t,
                found,
            )
            &&& r == self.hits(found)
        }
    }

    /// A search for the query may return `r`. Only one list may be returned.
    pub open spec fn finds(&self, query: &[u32], k: usize, beam_width: usize, r: Seq<Hit>) -> bool {
        exists|prep: Prepared, t: Trace, found: Seq<Candidate>, kept: Seq<Candidate>|
            #[trigger] self.search_result(
                query,
                k as int,
                beam_width as int,
                prep,
                t,
                found,
                kept,
                r,
            )
    }

    /// A filtered search for the query may return `r`: where there is no filter or there
    /// are no labels, what a search returns.
    pub open spec fn finds_filtered(
        &self,
        query: &[u32],
        k: usize,
        beam_width: usize,
        filter: &Filter,
        r: Seq<Hit>,
    ) -> bool {
        if filter is NoFilter || self.base_labels is None {
            self.finds(query, k, beam_width, r)
        } else {
            exists|t: Trace, found: Seq<Candidate>| #[trigger]
                self.filtered_result(query, k as int, beam_width as int, filter, t, found, r)
        }
    }

    /// The hits name live vectors, at most `k`, and none twice.
    pub open spec fn are_live(&self, k: int, r: Seq<Hit>) -> bool {
        &&& r.len() <= k
        &&& candidate::distinct(r)
        &&& forall|i: int| 0 <= i < r.len() ==> self.is_live((#[trigger] r[i]).id)
    }

    proof fn lemma_hits_live(&self, k: int, found: Seq<Candidate>)
        requires
            self.valid(),
            found.len() <= k,
            candidate::distinct(found),
            forall|i: int|
                0 <= i < found.len() ==> (#[trigger] found[i]).id < self.total() && self.live_at(
                    found[i].id as int,
                ),
        ensures
            self.are_live(k, self.hits(found)),
    {
        let r = self.hits(found);
        assert forall|i: int| 0 <= i < r.len() implies self.is_live((#[trigger] r[i]).id) by {
            assert(self.global(found[i].id as int) == r[i].id);
        }
        assert forall|i: int, j: int| 0 <= i < j < r.len() implies (#[trigger] r[i]).id != (
        #[trigger] r[j]).id by {
            assert(found[i].id != found[j].id);
        }
    }

    fn hand_out(&self, view: &UnifiedView<'a, '_, D>, found: &Vec<Candidate>) -> (r: Vec<Hit>)
        requires
            self.valid(),
            view.index == self,
            forall|i: int| 0 <= i < found@.len() ==> (#[trigger] found@[i]).id < self.total(),
        ensures
            r@ == self.hits(found@),
    {
        let mut r: Vec<Hit> = Vec::new();
        let mut i: usize = 0;
        while i < found.len()
            invariant
                i <= found@.len(),
                self.valid(),
                view.index == self,
                forall|i: int| 0 <= i < found@.len() ==> (#[trigger] found@[i]).id < self.total(),
                r@.len() == i,
                forall|j: int| 0 <= j < i ==> #[trigger] r@[j] == self.hits(found@)[j],
            decreases found@.len() - i,
        {
            r.push(Hit { dist: found[i].dist, id: view.to_global_u64(found[i].id) });
            i = i + 1;
        }
        assert(r@ =~= self.hits(found@));
        r
    }

    /// Searches the base and the added vectors together; the `k` best that were not
    /// deleted, nearest first.
    #[verifier::rlimit(40)]
    pub fn search_with_dists(&self, query: &[u32], k: usize, beam_width: usize) -> (r: Vec<Hit>)
        requires
            self.valid(),
            self.takes(query@),
            can_search(
                beam_width as int,
                if self.by_codes() {
                    quantized::search_k(self.rerank_size as int, k as int)
                } else {
                    k as int
                },
            ),
        ensures
            self.finds(query, k, beam_width, r@),
            self.are_live(k as int, r@),
    {
        broadcast use vstd::std_specs::hash::group_hash_axioms;

        let plain = UnifiedView { index: self, query, prep: None, filter: None };
        let starts = plain.entry_points();
        if starts.len() == 0 {
            let r: Vec<Hit> = Vec::new();
            proof {
                assert(self.search_result(
                    query,
                    k as int,
                    beam_width as int,
                    arbitrary(),
                    arbitrary(),
                    Seq::empty(),
                    Seq::empty(),
                    r@,
                ));
            }
            return r;
        }
        match (&self.quantizer, &self.base_codes) {
            (Some(q), Some(_)) => {
                let prep = q.prepare(self.dist, query);
                let view = UnifiedView { index: self, query, prep: Some(&prep), filter: None };
                let wanted: usize = if self.rerank_size > k {
                    self.rerank_size
                } else {
                    k
                };
                let config = tombstone_config(beam_width, wanted, self.tombstones.len());
                proof {
                    lemma_view_closed(&view);
                    assert forall|i: int| 0 <= i < starts@.len() implies view.holds(
                        #[trigger] starts@[i],
                    ) by {}
                }
                let found = beam_search(&view, starts.as_slice(), beam_width, wanted, config);
                let ghost t = choose|t: Trace| #[trigger]
                    beam::search_outcome(
                        &view,
                        starts@,
                        beam_width as int,
                        wanted as int,
                        config,
                        t,
                        found@,
                    );
                proof {
                    beam::answers_are_sound(
                        &view,
                        starts@,
                        beam_width as int,
                        wanted as int,
                        config,
                        t,
                        found@,
                    );
                    self.lemma_kept_live(&view, found@);
                }
                let ghost first_found = found@;
                let kept: Vec<Candidate> = if self.rerank_size > 0 {
                    let mut again: Vec<Candidate> = Vec::new();
                    let mut i: usize = 0;
                    while i < found.len()
                        invariant
                            i <= found@.len(),
                            self.valid(),
                            view.index == self,
                            view.query == query,
                            query@.len() == self.dim,
                            forall|i: int|
                                0 <= i < found@.len() ==> (#[trigger] found@[i]).id < self.total(),
                            again@.len() == i,
                            forall|j: int|
                                0 <= j < i ==> #[trigger] again@[j] == self.rescored(
                                    query@,
                                    found@,
                                )[j],
                        decreases found@.len() - i,
                    {
                        let id: u32 = found[i].id;
                        again.push(Candidate { dist: view.distance_to(id), id });
                        i = i + 1;
                    }
                    assert(again@ =~= self.rescored(query@, found@));
                    let kept = take_lowest(again, k);
                    proof {
                        self.lemma_rescored_live(query@, found@, k as int, kept@);
                    }
                    kept
                } else {
                    found
                };
                let r = self.hand_out(&view, &kept);
                proof {
                    self.lemma_hits_live(k as int, kept@);
                    assert(self.search_result(
                        query,
                        k as int,
                        beam_width as int,
                        prep,
                        t,
                        first_found,
                        kept@,
                        r@,
                    ));
                }
                r
            },
            _ => {
                let config = tombstone_config(beam_width, k, self.tombstones.len());
                proof {
                    lemma_view_closed(&plain);
                    assert forall|i: int| 0 <= i < starts@.len() implies plain.holds(
                        #[trigger] starts@[i],
                    ) by {}
                }
                let found = beam_search(&plain, starts.as_slice(), beam_width, k, config);
                let ghost t = choose|t: Trace| #[trigger]
                    beam::search_outcome(
                        &plain,
                        starts@,
                        beam_width as int,
                        k as int,
                        config,
                        t,
                        found@,
                    );
                proof {
                    beam::answers_are_sound(
                        &plain,
                        starts@,
                        beam_width as int,
                        k as int,
                        config,
                        t,
                        found@,
                    );
                    self.lemma_kept_live(&plain, found@);
                    self.lemma_hits_live(k as int, found@);
                }
                let r = self.hand_out(&plain, &found);
                proof {
                    assert(self.search_result(
                        query,
                        k as int,
                        beam_width as int,
                        arbitrary(),
                        t,
                        found@,
                        found@,
                        r@,
                    ));
                }
                r
            },
        }
    }

    proof fn lemma_kept_live(
        &self,
        view: &UnifiedView<D>,
        found: Seq<Candidate>,
    )
        requires
            view.index == self,
            forall|i: int|
                0 <= i < found.len() ==> {
                    &&& view.holds((#[trigger] found[i]).id)
                    &&& view.keeps(found[i].id)
                },
        ensures
            forall|i: int|
                0 <= i < found.len() ==> (#[trigger] found[i]).id < self.total() && self.live_at(
                    found[i].id as int,
                ),
    {
        assert forall|i: int| 0 <= i < found.len() implies (#[trigger] found[i]).id < self.total()
            && self.live_at(found[i].id as int) by {
            assert(view.holds(found[i].id));
        }
    }

    proof fn lemma_rescored_live(
        &self,
        query: Seq<u32>,
        found: Seq<Candidate>,
        k: int,
        kept: Seq<Candidate>,
    )
        requires
            k >= 0,
            candidate::distinct(found),
            candidate::lowest(self.rescored(query, found), k, kept),
            forall|i: int|
                0 <= i < found.len() ==> (#[trigger] found[i]).id < self.total() && self.live_at(
                    found[i].id as int,
                ),
        ensures
            kept.len() <= k,
            candidate::distinct(kept),
            forall|i: int|
                0 <= i < kept.len() ==> (#[trigger] kept[i]).id < self.total() && self.live_at(
                    kept[i].id as int,
                ),
    {
        let again = self.rescored(query, found);
        let all = choose|all: Seq<Candidate>| #[trigger]
            candidate::same_items(all, again) && candidate::ranked(all) && kept == candidate::first(
                all,
                k,
            );
        assert forall|i: int, j: int| 0 <= i < j < again.len() implies (#[trigger] again[i]).id != (
        #[trigger] again[j]).id by {
            assert(found[i].id != found[j].id);
        }
        assert(again.to_multiset() =~= all.to_multiset());
        candidate::lemma_same_items(again, all);
        assert forall|i: int| 0 <= i < kept.len() implies (#[trigger] kept[i]).id < self.total()
            && self.live_at(kept[i].id as int) by {
            assert(all.contains(kept[i])) by {
                assert(all[i] == kept[i]);
            }
            assert(again.contains(kept[i]));
            let j = choose|j: int| 0 <= j < again.len() && again[j] == kept[i];
            assert(found[j].id == kept[i].id);
        }
    }

    /// The ids that `search_with_dists` returns.
    pub fn search(&self, query: &[u32], k: usize, beam_width: usize) -> (r: Vec<u64>)
        requires
            self.valid(),
            self.takes(query@),
            can_search(
                beam_width as int,
                if self.by_codes() {
                    quantized::search_k(self.rerank_size as int, k as int)
                } else {
                    k as int
                },
            ),
        ensures
            self.answers(query@, k as int, beam_width as int, r@),
    {
        let hits = self.search_with_dists(query, k, beam_width);
        hit_ids_of(&hits)
    }

    /// The ids are those of a search for the query.
    pub open spec fn answers(&self, query: Seq<u32>, k: int, beam_width: int, r: Seq<u64>) -> bool {
        exists|
            q: &[u32],
            prep: Prepared,
            t: Trace,
            found: Seq<Candidate>,
            kept: Seq<Candidate>,
            hits: Seq<Hit>,
        |
            #[trigger] self.search_result(q, k, beam_width, prep, t, found, kept, hits) && q@
                == query && self.are_live(k, hits) && r == hit_ids(hits)
    }

    /// A search for each query.
    pub fn search_batch(&self, queries: &Vec<Vec<u32>>, k: usize, beam_width: usize) -> (r: Vec<
        Vec<u64>,
    >)
        requires
            self.valid(),
            self.starts().len() > 0 ==> kmeans::level(queries@, self.dim as int),
            can_search(
                beam_width as int,
                if self.by_codes() {
                    quantized::search_k(self.rerank_size as int, k as int)
                } else {
                    k as int
                },
            ),
        ensures
            r@.len() == queries@.len(),
            forall|i: int|
                0 <= i < r@.len() ==> self.answers(
                    queries@[i]@,
                    k as int,
                    beam_width as int,
                    (#[trigger] r@[i])@,
                ),
    {
        let mut r: Vec<Vec<u64>> = Vec::new();
        let mut i: usize = 0;
        while i < queries.len()
            invariant
                i <= queries@.len(),
                self.valid(),
                self.starts().len() > 0 ==> kmeans::level(queries@, self.dim as int),
                can_search(
                    beam_width as int,
                    if self.by_codes() {
                        quantized::search_k(self.rerank_size as int, k as int)
                    } else {
                        k as int
                    },
                ),
                r@.len() == i,
                forall|j: int|
                    0 <= j < i ==> self.answers(
                        queries@[j]@,
                        k as int,
                        beam_width as int,
                        (#[trigger] r@[j])@,
                    ),
            decreases queries@.len() - i,
        {
            assert(self.starts().len() > 0 ==> queries@[i as int]@.len() == self.dim);
            let found = self.search(queries[i].as_slice(), k, beam_width);
            r.push(found);
            i = i + 1;
        }
        r
    }

    /// Searches among the vectors whose labels a filter accepts. Without a filter or
    /// without labels it is an ordinary search.
    #[verifier::rlimit(40)]
    pub fn search_filtered_with_dists(
        &self,
        query: &[u32],
        k: usize,
        beam_width: usize,
        filter: &Filter,
    ) -> (r: Vec<Hit>)
        requires
            self.valid(),
            self.takes(query@),
            filtered::can_widen(beam_width as int, k as int),
            can_search(
                beam_width as int,
                if self.by_codes() {
                    quantized::search_k(self.rerank_size as int, k as int)
                } else {
                    k as int
                },
            ),
        ensures
            self.finds_filtered(query, k, beam_width, filter, r@),
            self.are_live(k as int, r@),
    {
        let plain: bool = match filter {
            Filter::NoFilter => true,
            _ => false,
        };
        if plain || self.base_labels.is_none() {
            return self.search_with_dists(query, k, beam_width);
        }
        let view = UnifiedView { index: self, query, prep: None, filter: Some(filter) };
        let starts = view.entry_points();
        if starts.len() == 0 {
            let r: Vec<Hit> = Vec::new();
            proof {
                assert(self.filtered_result(
                    query,
                    k as int,
                    beam_width as int,
                    filter,
                    arbitrary(),
                    Seq::empty(),
                    r@,
                ));
            }
            return r;
        }
        let config = filtered::widen(beam_width, k);
        proof {
            lemma_view_closed(&view);
            assert forall|i: int| 0 <= i < starts@.len() implies view.holds(
                #[trigger] starts@[i],
            ) by {}
        }
        let found = beam_search(&view, starts.as_slice(), beam_width, k, config);
        let ghost t = choose|t: Trace| #[trigger]
            beam::search_outcome(
                &view,
                starts@,
                beam_width as int,
                k as int,
                config,
                t,
                found@,
            );
        proof {
            beam::answers_are_sound(
                &view,
                starts@,
                beam_width as int,
                k as int,
                config,
                t,
                found@,
            );
            self.lemma_kept_live(&view, found@);
            self.lemma_hits_live(k as int, found@);
        }
        let r = self.hand_out(&view, &found);
        proof {
            assert(self.filtered_result(
                query,
                k as int,
                beam_width as int,
                filter,
                t,
                found@,
                r@,
            ));
        }
        r
    }

    /// The ids that `search_filtered_with_dists` returns.
    pub fn search_filtered(&self, query: &[u32], k: usize, beam_width: usize, filter: &Filter) -> (r:
        Vec<u64>)
        requires
            self.valid(),
            self.takes(query@),
            filtered::can_widen(beam_width as int, k as int),
            can_search(
                beam_width as int,
                if self.by_codes() {
                    quantized::search_k(self.rerank_size as int, k as int)
                } else {
                    k as int
                },
            ),
        ensures
            if filter is NoFilter || self.base_labels is None {
                self.answers(query@, k as int, beam_width as int, r@)
            } else {
                exists|t: Trace, found: Seq<Candidate>, hits: Seq<Hit>| #[trigger]
                    self.filtered_result(
                        query,
                        k as int,
                        beam_width as int,
                        filter,
                        t,
                        found,
                        hits,
                    ) && self.are_live(k as int, hits) && r@ == hit_ids(hits)
            },
    {
        let hits = self.search_filtered_with_dists(query, k, beam_width, filter);
        hit_ids_of(&hits)
    }
}

/// Every hit of a filtered search has labels that the filter accepts.
pub proof fn filter_is_kept<D: Distance>(
    index: &IncrementalDiskANN<D>,
    query: &[u32],
    k: int,
    beam_width: int,
    filter: &Filter,
    t: Trace,
    found: Seq<Candidate>,
    r: Seq<Hit>,
    i: int,
)
    requires
        k >= 0,
        index.valid(),
        query@.len() == index.dim,
        index.filtered_result(query, k, beam_width, filter, t, found, r),
        0 <= i < r.len(),
    ensures
        exists|pos: int|
            0 <= pos < index.total() && #[trigger] index.global(pos) == r[i].id && index.label_at(
                pos,
            ) is Some && filter.accepts(index.label_at(pos)->Some_0),
{
    let view = UnifiedView { index, query, prep: None, filter: Some(filter) };
    lemma_view_closed(&view);
    assert forall|j: int| 0 <= j < index.starts().len() implies view.holds(
        #[trigger] index.starts()[j],
    ) by {}
    beam::answers_are_sound(
        &view,
        index.starts(),
        beam_width,
        k,
        filtered::filtered_config(beam_width, k),
        t,
        found,
    );
    assert(view.keeps(found[i].id));
    assert(view.holds(found[i].id));
    assert(index.global(found[i].id as int) == r[i].id);
}

/// Checks that vectors have `dim` components each, and finds the first that has not.
pub fn check_dims(vectors: &Vec<Vec<u32>>, dim: usize) -> (r: Option<usize>)
    ensures
        match index::first_mismatch(vectors@, dim as int, 0) {
            Some(i) => r is Some && r->0 == i && 0 <= i < vectors@.len(),
            None => r is None && kmeans::level(vectors@, dim as int),
        },
{
    let mut i: usize = 0;
    while i < vectors.len()
        invariant
            i <= vectors@.len(),
            forall|j: int| 0 <= j < i ==> (#[trigger] vectors@[j])@.len() == dim,
            index::first_mismatch(vectors@, dim as int, 0) == index::first_mismatch(
                vectors@,
                dim as int,
                i as int,
            ),
        decreases vectors@.len() - i,
    {
        if vectors[i].len() != dim {
            return Some(i);
        }
        i = i + 1;
    }
    None
}

/// Checks that rows of labels have `fields` fields each.
fn check_rows(labels: &Vec<Vec<u64>>, fields: usize) -> (r: Option<usize>)
    ensures
        match filtered::first_odd_row(labels@, fields as int, 0) {
            Some(i) => r is Some && r->0 == i && 0 <= i < labels@.len(),
            None => r is None,
        },
{
    let mut i: usize = 0;
    while i < labels.len()
        invariant
            i <= labels@.len(),
            filtered::first_odd_row(labels@, fields as int, 0) == filtered::first_odd_row(
                labels@,
                fields as int,
                i as int,
            ),
        decreases labels@.len() - i,
    {
        if labels[i].len() != fields {
            return Some(i);
        }
        i = i + 1;
    }
    None
}

/// Numbers about an index.
#[derive(Clone, Copy, Debug, PartialEq, Eq, Structural)]
pub struct IncrementalStats {
    pub base_vectors: usize,
    pub delta_vectors: usize,
    pub tombstones: usize,
    pub total_live: usize,
    pub dim: usize,
}

/// A row of zeros.
pub open spec fn zeros(n: int) -> Seq<u64> {
    Seq::new(n as nat, |i: int| 0u64)
}

fn zero_row(n: usize) -> (r: Vec<u64>)
    ensures
        r@ == zeros(n as int),
{
    let mut r: Vec<u64> = Vec::new();
    let mut i: usize = 0;
    while i < n
        invariant
            i <= n,
            r@.len() == i,
            forall|j: int| 0 <= j < i ==> #[trigger] r@[j] == 0,
        decreases n - i,
    {
        r.push(0);
        i = i + 1;
    }
    assert(r@ =~= zeros(n as int));
    r
}

impl<'a, D: Distance> IncrementalDiskANN<'a, D> {
    /// All but the added vectors and their labels is the same.
    pub open spec fn same_base(&self, other: &Self) -> bool {
        &&& self.base == other.base
        &&& self.tombstones == other.tombstones
        &&& self.dist == other.dist
        &&& self.config == other.config
        &&& self.dim == other.dim
        &&& self.base_labels == other.base_labels
        &&& self.num_label_fields == other.num_label_fields
        &&& self.quantizer == other.quantizer
        &&& self.base_codes == other.base_codes
        &&& self.code_size == other.code_size
        &&& self.rerank_size == other.rerank_size
    }

    /// The vectors, with these rows of labels, were added to `pre`, and got the ids.
    pub open spec fn is_extension(
        &self,
        pre: &Self,
        vectors: Seq<Vec<u32>>,
        labels: Seq<Seq<u64>>,
        ids: Seq<u64>,
    ) -> bool {
        &&& self.same_base(pre)
        &&& exists|states: Seq<DeltaLayer>| #[trigger]
            delta::extended(pre.delta, vectors, pre.dist, states, self.delta)
        &&& pre.delta.tidy() ==> self.delta.tidy()
        &&& self.delta_labels@.len() == pre.delta_labels@.len() + labels.len()
        &&& forall|i: int|
            0 <= i < pre.delta_labels@.len() ==> #[trigger] self.delta_labels@[i]
                == pre.delta_labels@[i]
        &&& forall|i: int|
            0 <= i < labels.len() ==> (#[trigger] self.delta_labels@[pre.delta_labels@.len() + i])@
                == labels[i]
        &&& self.total() == pre.total() + vectors.len()
        &&& forall|pos: int|
            0 <= pos < pre.total() ==> #[trigger] self.vector_at(pos) == pre.vector_at(pos)
        &&& forall|i: int|
            0 <= i < vectors.len() ==> self.vector_at(pre.total() + i) == (#[trigger] vectors[i])@
        &&& ids.len() == vectors.len()
        &&& forall|i: int|
            0 <= i < ids.len() ==> #[trigger] ids[i] == self.global(pre.total() + i) && ids[i]
                == DELTA_ID_OFFSET + pre.delta.vectors@.len() + i
    }

    fn extend(&mut self, vectors: &Vec<Vec<u32>>, labels: Vec<Vec<u64>>) -> (ids: Vec<u64>)
        requires
            old(self).valid(),
            old(self).total() + vectors@.len() < u32::MAX,
            kmeans::level(vectors@, old(self).dim as int),
        ensures
            final(self).valid(),
            final(self).is_extension(
                &*old(self),
                vectors@,
                labels@.map_values(|l: Vec<u64>| l@),
                ids@,
            ),
    {
        let ghost pre = *self;
        let ghost rows = labels@.map_values(|l: Vec<u64>| l@);
        let dist = self.dist;
        let mut labels = labels;
        let ghost added = labels@;
        self.delta_labels.append(&mut labels);
        assert(pre.delta.wf(pre.dim as int) && kmeans::level(vectors@, pre.dim as int));
        let ids = self.delta.add_vectors(vectors, dist);
        proof {
            assert forall|i: int| 0 <= i < rows.len() implies (
            #[trigger] self.delta_labels@[pre.delta_labels@.len() + i])@ == rows[i] by {
                assert(self.delta_labels@[pre.delta_labels@.len() + i] == added[i]);
            }
            assert forall|pos: int| 0 <= pos < pre.total() implies #[trigger] self.vector_at(pos)
                == pre.vector_at(pos) by {
                if pos >= pre.base_count() {
                    let local = pos - pre.base_count();
                    assert(self.delta.vectors@[local] == pre.delta.vectors@[local]);
                }
            }
            assert forall|i: int| 0 <= i < vectors@.len() implies self.vector_at(pre.total() + i)
                == (#[trigger] vectors@[i])@ by {
                assert(self.delta.vectors@[pre.delta.vectors@.len() + i]@ == vectors@[i]@);
            }
        }
        ids
    }

    /// What `add_vectors` does: nothing for no vectors, nothing but report the first
    /// vector of a wrong length, and else add the vectors, with rows of zeros where
    /// there are labels.
    pub open spec fn added(
        pre: &Self,
        vectors: Seq<Vec<u32>>,
        post: &Self,
        r: Result<Vec<u64>, DiskAnnError>,
    ) -> bool {
        let bad = index::first_mismatch(vectors, pre.dim as int, 0);
        if vectors.len() == 0 {
            r is Ok && r->Ok_0@.len() == 0 && *post == *pre
        } else if bad is Some {
            &&& *post == *pre
            &&& r is Err
            &&& r->Err_0 == DiskAnnError::IndexError(
                Fault::AddedDimension {
                    index: bad->0 as usize,
                    found: vectors[bad->0]@.len() as usize,
                    expected: pre.dim,
                },
            )
        } else {
            &&& r is Ok
            &&& post.is_extension(
                pre,
                vectors,
                if pre.num_label_fields > 0 {
                    Seq::new(vectors.len(), |i: int| zeros(pre.num_label_fields as int))
                } else {
                    Seq::empty()
                },
                r->Ok_0@,
            )
        }
    }

    /// Adds vectors; their ids follow on those given out before.
    pub fn add_vectors(&mut self, vectors: &Vec<Vec<u32>>) -> (r: Result<Vec<u64>, DiskAnnError>)
        requires
            old(self).valid(),
            old(self).total() + vectors@.len() < u32::MAX,
        ensures
            final(self).valid(),
            Self::added(&*old(self), vectors@, &*final(self), r),
    {
        if vectors.len() == 0 {
            return Ok(Vec::new());
        }
        match check_dims(vectors, self.dim) {
            Some(index) => {
                return Err(
                    DiskAnnError::IndexError(
                        Fault::AddedDimension {
                            index,
                            found: vectors[index].len(),
                            expected: self.dim,
                        },
                    ),
                );
            },
            None => {},
        }
        let ghost pre = *self;
        let fields: usize = self.num_label_fields;
        let mut labels: Vec<Vec<u64>> = Vec::new();
        if fields > 0 {
            let mut i: usize = 0;
            while i < vectors.len()
                invariant
                    i <= vectors@.len(),
                    labels@.len() == i,
                    forall|j: int| 0 <= j < i ==> (#[trigger] labels@[j])@ == zeros(fields as int),
                decreases vectors@.len() - i,
            {
                labels.push(zero_row(fields));
                i = i + 1;
            }
        }
        proof {
            let rows = labels@.map_values(|l: Vec<u64>| l@);
            if fields > 0 {
                assert(rows =~= Seq::new(vectors@.len(), |i: int| zeros(fields as int)));
            } else {
                assert(rows =~= Seq::empty());
            }
        }
        Ok(self.extend(vectors, labels))
    }

    /// What `add_vectors_with_labels` does: nothing for no vectors, nothing but report
    /// what does not fit, and else add the vectors with their labels.
    pub open spec fn added_with_labels(
        pre: &Self,
        vectors: Seq<Vec<u32>>,
        labels: Seq<Vec<u64>>,
        post: &Self,
        r: Result<Vec<u64>, DiskAnnError>,
    ) -> bool {
        let bad = index::first_mismatch(vectors, pre.dim as int, 0);
        let odd = filtered::first_odd_row(labels, pre.num_label_fields as int, 0);
        if vectors.len() == 0 {
            r is Ok && r->Ok_0@.len() == 0 && *post == *pre
        } else if vectors.len() != labels.len() {
            &&& *post == *pre
            &&& r is Err
            &&& r->Err_0 == DiskAnnError::IndexError(
                Fault::LabelCount {
                    labels: labels.len() as usize,
                    vectors: vectors.len() as usize,
                },
            )
        } else if bad is Some {
            &&& *post == *pre
            &&& r is Err
            &&& r->Err_0 == DiskAnnError::IndexError(
                Fault::AddedDimension {
                    index: bad->0 as usize,
                    found: vectors[bad->0]@.len() as usize,
                    expected: pre.dim,
                },
            )
        } else if pre.num_label_fields > 0 && odd is Some {
            &&& *post == *pre
            &&& r is Err
            &&& r->Err_0 == DiskAnnError::IndexError(
                Fault::LabelFields {
                    index: odd->0 as usize,
                    found: labels[odd->0]@.len() as usize,
                    expected: pre.num_label_fields,
                },
            )
        } else {
            &&& r is Ok
            &&& post.is_extension(
                pre,
                vectors,
                labels.map_values(|l: Vec<u64>| l@),
                r->Ok_0@,
            )
        }
    }

    /// Adds vectors with labels; their ids follow on those given out before.
    pub fn add_vectors_with_labels(
        &mut self,
        vectors: &Vec<Vec<u32>>,
        labels: Vec<Vec<u64>>,
    ) -> (r: Result<Vec<u64>, DiskAnnError>)
        requires
            old(self).valid(),
            old(self).total() + vectors@.len() < u32::MAX,
        ensures
            final(self).valid(),
            Self::added_with_labels(&*old(self), vectors@, labels@, &*final(self), r),
    {
        if vectors.len() == 0 {
            return Ok(Vec::new());
        }
        if vectors.len() != labels.len() {
            return Err(
                DiskAnnError::IndexError(
                    Fault::LabelCount { labels: labels.len(), vectors: vectors.len() },
                ),
            );
        }
        match check_dims(vectors, self.dim) {
            Some(index) => {
                return Err(
                    DiskAnnError::IndexError(
                        Fault::AddedDimension {
                            index,
                            found: vectors[index].len(),
                            expected: self.dim,
                        },
                    ),
                );
            },
            None => {},
        }
        if self.num_label_fields > 0 {
            match check_rows(&labels, self.num_label_fields) {
                Some(index) => {
                    return Err(
                        DiskAnnError::IndexError(
                            Fault::LabelFields {
                                index,
                                found: labels[index].len(),
                                expected: self.num_label_fields,
                            },
                        ),
                    );
                },
                None => {},
            }
        }
        Ok(self.extend(vectors, labels))
    }

    /// Deleting `ids` takes `pre` to `post`.
    pub open spec fn deleted(pre: &Self, ids: Seq<u64>, post: &Self) -> bool {
        &&& post.tombstones@ == pre.tombstones@.union(ids.to_set())
        &&& post.base == pre.base
        &&& post.delta == pre.delta
        &&& post.dist == pre.dist
        &&& post.config == pre.config
        &&& post.dim == pre.dim
        &&& post.base_labels == pre.base_labels
        &&& post.delta_labels == pre.delta_labels
        &&& post.num_label_fields == pre.num_label_fields
        &&& post.quantizer == pre.quantizer
        &&& post.base_codes == pre.base_codes
        &&& post.code_size == pre.code_size
        &&& post.rerank_size == pre.rerank_size
    }

    /// Deletes vectors: searches no longer return them. Ids that name no vector are
    /// remembered too.
    pub fn delete_vectors(&mut self, ids: &[u64]) -> (r: Result<(), DiskAnnError>)
        ensures
            r is Ok,
            Self::deleted(&*old(self), ids@, &*final(self)),
            old(self).valid() ==> final(self).valid(),
    {
        broadcast use vstd::std_specs::hash::group_hash_axioms;

        let ghost pre = *self;
        let mut i: usize = 0;
        assert(self.tombstones@ =~= pre.tombstones@.union(ids@.take(0).to_set()));
        while i < ids.len()
            invariant
                i <= ids@.len(),
                Self::deleted(&pre, ids@.take(i as int), &*self),
            decreases ids@.len() - i,
        {
            broadcast use vstd::std_specs::hash::group_hash_axioms;

            self.tombstones.insert(ids[i]);
            proof {
                let a = ids@.take(i as int);
                let b = ids@.take(i + 1);
                assert(b =~= a.push(ids@[i as int]));
                assert forall|id: u64| #[trigger] b.to_set().contains(id) <==> a.to_set().contains(
                    id,
                ) || id == ids@[i as int] by {
                    if a.contains(id) {
                        let m = choose|m: int| 0 <= m < a.len() && a[m] == id;
                        assert(b[m] == id);
                    }
                    assert(b[i as int] == ids@[i as int]);
                }
                assert(self.tombstones@ =~= pre.tombstones@.union(b.to_set()));
            }
            i = i + 1;
        }
        assert(ids@.take(ids@.len() as int) =~= ids@);
        Ok(())
    }

    /// Whether an id was deleted.
    pub fn is_deleted(&self, id: u64) -> (r: bool)
        ensures
            r == self.tombstones@.contains(id),
    {
        broadcast use vstd::std_specs::hash::group_hash_axioms;

        self.tombstones.contains(&id)
    }

    /// The vector with an id, deleted or not.
    pub fn get_vector(&self, id: u64) -> (r: Option<Vec<u32>>)
        requires
            self.valid(),
        ensures
            match r {
                Some(v) => exists|pos: int|
                    0 <= pos < self.total() && #[trigger] self.global(pos) == id && v@
                        == self.vector_at(pos),
                None => forall|pos: int|
                    0 <= pos < self.total() ==> #[trigger] self.global(pos) != id,
            },
    {
        if delta::is_delta_id(id) {
            if id - DELTA_ID_OFFSET > usize::MAX as u64 {
                return None;
            }
            match self.delta.get_vector(delta::delta_local_idx(id)) {
                Some(v) => {
                    let r = v.clone();
                    proof {
                        let pos = self.base_count() + (id - DELTA_ID_OFFSET);
                        assert(r@ =~= v@);
                        assert(self.global(pos) == id);
                        assert(r@ == self.vector_at(pos));
                    }
                    Some(r)
                },
                None => None,
            }
        } else {
            match &self.base {
                Some(b) => {
                    if id < b.num_vectors as u64 {
                        proof {
                            b.lemma_has(id as int);
                        }
                        let r = b.get_vector(id as usize);
                        proof {
                            assert(self.global(id as int) == id);
                            assert(r@ == self.vector_at(id as int));
                        }
                        Some(r)
                    } else {
                        None
                    }
                },
                None => None,
            }
        }
    }

    /// Compaction is due: there are many added vectors, or a large share was deleted.
    pub open spec fn is_due(&self) -> bool {
        self.delta.vectors@.len() >= self.config.delta_threshold || (self.total() > 0
                && word::at_most(
                self.config.tombstone_ratio_threshold,
                self.dist.quotient_spec(
                    self.dist.count_spec(self.tombstones@.len() as usize),
                    self.dist.count_spec(self.total() as usize),
                ),
            ))
    }

    /// Whether compaction is due.
    pub fn should_compact(&self) -> (r: bool)
        requires
            self.valid(),
        ensures
            r == self.is_due(),
    {
        broadcast use vstd::std_specs::hash::group_hash_axioms;

        let base_size: usize = match &self.base {
            Some(b) => b.num_vectors,
            None => 0,
        };
        let total: usize = base_size + self.delta.len();
        if self.delta.len() >= self.config.delta_threshold {
            return true;
        }
        if total > 0 {
            let ratio: u32 = self.dist.quotient(
                self.dist.count(self.tombstones.len()),
                self.dist.count(total),
            );
            return word::le(self.config.tombstone_ratio_threshold, ratio);
        }
        false
    }

    /// Numbers about the index.
    pub fn stats(&self) -> (r: IncrementalStats)
        requires
            self.valid(),
        ensures
            r.base_vectors == self.base_count(),
            r.delta_vectors == self.delta.vectors@.len(),
            r.tombstones == self.tombstones@.len(),
            r.total_live == if self.total() >= self.tombstones@.len() {
                self.total() - self.tombstones@.len()
            } else {
                0
            },
            r.dim == self.dim,
    {
        broadcast use vstd::std_specs::hash::group_hash_axioms;

        let base_vectors: usize = match &self.base {
            Some(b) => b.num_vectors,
            None => 0,
        };
        let delta_vectors: usize = self.delta.len();
        let tombstones: usize = self.tombstones.len();
        IncrementalStats {
            base_vectors,
            delta_vectors,
            tombstones,
            total_live: (base_vectors + delta_vectors).saturating_sub(tombstones),
            dim: self.dim,
        }
    }

    /// Components of each vector.
    pub fn dim(&self) -> (r: usize)
        ensures
            r == self.dim,
    {
        self.dim
    }

    /// Whether the vectors have labels.
    pub fn has_labels(&self) -> (r: bool)
        ensures
            r == (self.base_labels is Some),
    {
        self.base_labels.is_some()
    }

    /// Whether there is a quantizer.
    pub fn has_quantizer(&self) -> (r: bool)
        ensures
            r == (self.quantizer is Some),
    {
        self.quantizer.is_some()
    }
}

/// Deleting the same ids again changes nothing.
pub proof fn deletion_is_idempotent<D: Distance>(
    pre: &IncrementalDiskANN<D>,
    ids: Seq<u64>,
    once: &IncrementalDiskANN<D>,
    twice: &IncrementalDiskANN<D>,
)
    requires
        IncrementalDiskANN::deleted(pre, ids, once),
        IncrementalDiskANN::deleted(once, ids, twice),
    ensures
        twice.tombstones@ == once.tombstones@,
{
    assert(twice.tombstones@ =~= once.tombstones@);
}

/// What was deleted is not live, and so no search returns it.
pub proof fn deleted_is_not_live<D: Distance>(
    pre: &IncrementalDiskANN<D>,
    ids: Seq<u64>,
    post: &IncrementalDiskANN<D>,
    id: u64,
)
    requires
        IncrementalDiskANN::deleted(pre, ids, post),
        ids.contains(id),
    ensures
        !post.is_live(id),
{
    assert(ids.to_set().contains(id));
}

/// Adding vectors deletes and revives nothing: a vector that was there is live exactly
/// if it was live before.
pub proof fn additions_keep_the_rest<D: Distance>(
    pre: &IncrementalDiskANN<D>,
    vectors: Seq<Vec<u32>>,
    labels: Seq<Seq<u64>>,
    ids: Seq<u64>,
    post: &IncrementalDiskANN<D>,
    pos: int,
)
    requires
        post.is_extension(pre, vectors, labels, ids),
        0 <= pos < pre.total(),
    ensures
        post.global(pos) == pre.global(pos),
        post.vector_at(pos) == pre.vector_at(pos),
        post.live_at(pos) == pre.live_at(pos),
{
}

/// How codes are used.
#[derive(Clone, Copy, Debug)]
pub struct IncrementalQuantizedConfig {
    /// How many of the best by code are compared again by their vectors; 0 for none.
    pub rerank_size: usize,
}

impl Default for IncrementalQuantizedConfig {
    fn default() -> (r: Self)
        ensures
            r.rerank_size == 0,
    {
        IncrementalQuantizedConfig { rerank_size: 0 }
    }
}

/// Which quantizer an index is built with.
#[derive(Clone, Copy, Debug)]
pub enum QuantizerKind {
    F16,
    Int8,
    PQ(PQConfig),
    RaBitQ,
}

impl QuantizerKind {
    /// The sizes of codes for these vectors can be told in machine words.
    pub open spec fn can_train(&self, vectors: Seq<Vec<u32>>) -> bool {
        match self {
            QuantizerKind::F16 => vectors.len() > 0 ==> 2 * vectors[0]@.len() <= usize::MAX,
            QuantizerKind::Int8 => vectors.len() > 0 ==> vectors[0]@.len() <= sq::MAX_BYTE_CODE,
            QuantizerKind::PQ(config) => pq::can_count(vectors, *config),
            QuantizerKind::RaBitQ => vectors.len() > 0 ==> vectors[0]@.len() <= rabitq::MAX_PADDED,
        }
    }

    /// Training on the vectors of an index gives `r`.
    pub open spec fn trained<D: Distance>(
        &self,
        dist: D,
        vectors: Seq<Vec<u32>>,
        r: Result<QuantizerState, DiskAnnError>,
    ) -> bool {
        match self {
            QuantizerKind::F16 => r is Ok && r->Ok_0 == QuantizerState::F16(
                F16Quantizer { dim: vectors[0]@.len() as usize },
            ),
            QuantizerKind::Int8 => quantized::int8_trained(dist, vectors, r),
            QuantizerKind::PQ(config) => quantized::pq_trained(dist, vectors, *config, r),
            QuantizerKind::RaBitQ => quantized::rabitq_trained(dist, vectors, r),
        }
    }

    fn train<D: Distance>(&self, dist: D, vectors: &Vec<Vec<u32>>) -> (r: Result<
        QuantizerState,
        DiskAnnError,
    >)
        requires
            vectors@.len() > 0,
            kmeans::level(vectors@, vectors@[0]@.len() as int),
            index::first_mismatch(vectors@, vectors@[0]@.len() as int, 0) is None,
            self.can_train(vectors@),
        ensures
            self.trained(dist, vectors@, r),
            r matches Ok(q) ==> q.wf() && q.dim_of() == vectors@[0]@.len(),
    {
        match self {
            QuantizerKind::F16 => Ok(QuantizerState::F16(F16Quantizer::new(vectors[0].len()))),
            QuantizerKind::Int8 => match Int8Quantizer::train(dist, vectors) {
                Ok(q) => Ok(QuantizerState::Int8(q)),
                Err(e) => Err(e),
            },
            QuantizerKind::PQ(config) => match ProductQuantizer::train(dist, vectors, *config) {
                Ok(q) => {
                    let ghost sample = choose|sample: Seq<usize>| #[trigger]
                        pq::is_trained(&q, dist, vectors@, *config, sample);
                    let r: Result<QuantizerState, DiskAnnError> = Ok(QuantizerState::PQ(q));
                    assert(pq::is_trained(&r->Ok_0->PQ_0, dist, vectors@, *config, sample));
                    r
                },
                Err(e) => Err(e),
            },
            QuantizerKind::RaBitQ => match RaBitQ::train(dist, vectors) {
                Ok(q) => Ok(QuantizerState::RaBitQ(q)),
                Err(e) => Err(e),
            },
        }
    }
}

impl<'a, D: Distance> IncrementalDiskANN<'a, D> {
    /// Nothing was added to the base, and nothing deleted.
    pub open spec fn is_clean(&self) -> bool {
        &&& self.delta.vectors@.len() == 0
        &&& self.delta.graph@.len() == 0
        &&& self.delta.entry_point is None
        &&& self.delta.max_degree == self.config.delta_params.max_degree
        &&& self.tombstones@ == Set::<u64>::empty()
        &&& self.delta_labels@.len() == 0
    }

    /// There are neither labels nor codes.
    pub open spec fn is_plain(&self) -> bool {
        &&& self.base_labels is None
        &&& self.num_label_fields == 0
        &&& self.quantizer is None
        &&& self.base_codes is None
        &&& self.code_size == 0
        &&& self.rerank_size == 0
    }

    fn assemble(base: Option<DiskANN<'a, D>>, dim: usize, dist: D, config: IncrementalConfig) -> (r:
        Self)
        ensures
            r.base == base,
            r.dim == dim,
            r.dist == dist,
            r.config == config,
            r.is_clean(),
            r.is_plain(),
    {
        broadcast use vstd::std_specs::hash::group_hash_axioms;

        IncrementalDiskANN {
            base,
            delta: DeltaLayer::new(config.delta_params.max_degree),
            tombstones: HashSet::new(),
            dist,
            config,
            dim,
            base_labels: None,
            delta_labels: Vec::new(),
            num_label_fields: 0,
            quantizer: None,
            base_codes: None,
            code_size: 0,
            rerank_size: 0,
        }
    }

    /// An index without a base.
    pub fn new_empty(dim: usize, dist: D, config: IncrementalConfig) -> (r: Self)
        requires
            config.delta_params.max_degree * 2 <= usize::MAX,
        ensures
            r.valid(),
            r.base is None,
            r.dim == dim,
            r.dist == dist,
            r.config == config,
            r.is_clean(),
            r.is_plain(),
    {
        Self::assemble(None, dim, dist, config)
    }

    /// Building an index gives `r`; `base` is what building its base gives, and
    /// `trained` what training its quantizer gives, where there is to be one.
    pub open spec fn built(
        vectors: &Vec<Vec<u32>>,
        labels: Option<Seq<Vec<u64>>>,
        dist: D,
        config: IncrementalConfig,
        kind: Option<QuantizerKind>,
        rerank_size: usize,
        base: Result<DiskANN<'a, D>, DiskAnnError>,
        trained: Result<QuantizerState, DiskAnnError>,
        r: Result<Self, DiskAnnError>,
    ) -> bool {
        if labels is Some && labels->0.len() != vectors@.len() {
            r is Err && r->Err_0 == DiskAnnError::IndexError(
                Fault::LabelCount {
                    labels: labels->0.len() as usize,
                    vectors: vectors@.len() as usize,
                },
            )
        } else {
            &&& DiskANN::built(
                vectors,
                index::BUILD_MAX_DEGREE as int,
                index::BUILD_BEAM_WIDTH as int,
                index::DISKANN_DEFAULT_ALPHA,
                dist,
                base,
            )
            &&& match base {
                Err(e) => r is Err && r->Err_0 == e,
                Ok(b) => {
                    &&& kind is Some ==> kind->0.trained(dist, vectors@, trained)
                    &&& if kind is Some && trained is Err {
                        r is Err && r->Err_0 == trained->Err_0
                    } else {
                        &&& r is Ok
                        &&& r->Ok_0.base == Some(b)
                        &&& r->Ok_0.dim == b.dim
                        &&& r->Ok_0.dist == dist
                        &&& r->Ok_0.config == config
                        &&& r->Ok_0.is_clean()
                        &&& match labels {
                            Some(l) => {
                                &&& r->Ok_0.base_labels is Some
                                &&& r->Ok_0.base_labels->0@ == l
                                &&& r->Ok_0.num_label_fields == filtered::field_count(l)
                            },
                            None => {
                                &&& r->Ok_0.base_labels is None
                                &&& r->Ok_0.num_label_fields == 0
                            },
                        }
                        &&& if kind is Some {
                            let q = trained->Ok_0;
                            &&& r->Ok_0.quantizer == Some(q)
                            &&& r->Ok_0.base_codes is Some
                            &&& r->Ok_0.base_codes->0@ == quantizer::codes_of(
                                &q,
                                dist,
                                crate::metric::rows(vectors@),
                                vectors@.len() as int,
                            )
                            &&& r->Ok_0.code_size == q.code_len()
                            &&& r->Ok_0.rerank_size == rerank_size
                        } else {
                            &&& r->Ok_0.quantizer is None
                            &&& r->Ok_0.base_codes is None
                            &&& r->Ok_0.code_size == 0
                            &&& r->Ok_0.rerank_size == 0
                        }
                    }
                },
            }
        }
    }

    #[verifier::rlimit(40)]
    fn build(
        vectors: &Vec<Vec<u32>>,
        labels: Option<Vec<Vec<u64>>>,
        dist: D,
        config: IncrementalConfig,
        kind: Option<QuantizerKind>,
        rerank_size: usize,
    ) -> (r: Result<Self, DiskAnnError>)
        requires
            index::can_be_laid_out(vectors@, index::BUILD_MAX_DEGREE as int),
            config.delta_params.max_degree * 2 <= usize::MAX,
            kind matches Some(k) ==> k.can_train(vectors@),
        ensures
            exists|
                base: Result<DiskANN<'a, D>, DiskAnnError>,
                trained: Result<QuantizerState, DiskAnnError>,
            | #[trigger]
                Self::built(
                    vectors,
                    rows_in(&labels),
                    dist,
                    config,
                    kind,
                    rerank_size,
                    base,
                    trained,
                    r,
                ),
            r matches Ok(index) ==> index.valid(),
    {
        let ghost rows = rows_in(&labels);
        let ghost no_base: Result<DiskANN<'a, D>, DiskAnnError> = Err(DiskAnnError::UnexpectedEof);
        let ghost untrained: Result<QuantizerState, DiskAnnError> = Err(
            DiskAnnError::UnexpectedEof,
        );
        match &labels {
            Some(l) => {
                if l.len() != vectors.len() {
                    let r: Result<Self, DiskAnnError> = Err(
                        DiskAnnError::IndexError(
                            Fault::LabelCount { labels: l.len(), vectors: vectors.len() },
                        ),
                    );
                    assert(Self::built(
                        vectors,
                        rows,
                        dist,
                        config,
                        kind,
                        rerank_size,
                        no_base,
                        untrained,
                        r,
                    ));
                    return r;
                }
            },
            None => {},
        }
        let base = DiskANN::build_index_default(vectors, dist);
        let ghost kept = base;
        let index = match base {
            Ok(index) => index,
            Err(e) => {
                let r: Result<Self, DiskAnnError> = Err(e);
                assert(Self::built(
                    vectors,
                    rows,
                    dist,
                    config,
                    kind,
                    rerank_size,
                    kept,
                    untrained,
                    r,
                ));
                return r;
            },
        };
        proof {
            let params = DiskAnnParams {
                max_degree: index::BUILD_MAX_DEGREE,
                build_beam_width: index::BUILD_BEAM_WIDTH,
                alpha: index::DISKANN_DEFAULT_ALPHA,
            };
            quantized::lemma_built_shape(vectors, params, dist, kept);
        }
        let dim: usize = index.dim;
        let mut built = Self::assemble(Some(index), dim, dist, config);
        match labels {
            Some(l) => {
                built.num_label_fields = if l.len() > 0 {
                    l[0].len()
                } else {
                    0
                };
                built.base_labels = Some(l);
            },
            None => {},
        }
        match kind {
            None => {
                let r: Result<Self, DiskAnnError> = Ok(built);
                assert(Self::built(
                    vectors,
                    rows,
                    dist,
                    config,
                    kind,
                    rerank_size,
                    kept,
                    untrained,
                    r,
                ));
                r
            },
            Some(k) => {
                let trained = k.train(dist, vectors);
                let ghost kept_trained = trained;
                match trained {
                    Ok(q) => {
                        let codes = quantizer::encode_all(&q, dist, vectors);
                        built.code_size = q.code_size();
                        built.quantizer = Some(q);
                        built.base_codes = Some(codes);
                        built.rerank_size = rerank_size;
                        let r: Result<Self, DiskAnnError> = Ok(built);
                        assert(Self::built(
                            vectors,
                            rows,
                            dist,
                            config,
                            kind,
                            rerank_size,
                            kept,
                            kept_trained,
                            r,
                        ));
                        r
                    },
                    Err(e) => {
                        let r: Result<Self, DiskAnnError> = Err(e);
                        assert(Self::built(
                            vectors,
                            rows,
                            dist,
                            config,
                            kind,
                            rerank_size,
                            kept,
                            kept_trained,
                            r,
                        ));
                        r
                    },
                }
            },
        }
    }

    /// Builds an index.
    pub fn build_with_config(
        vectors: &Vec<Vec<u32>>,
        dist: D,
        config: IncrementalConfig,
    ) -> (r: Result<Self, DiskAnnError>)
        requires
            index::can_be_laid_out(vectors@, index::BUILD_MAX_DEGREE as int),
            config.delta_params.max_degree * 2 <= usize::MAX,
        ensures
            exists|
                base: Result<DiskANN<'a, D>, DiskAnnError>,
                trained: Result<QuantizerState, DiskAnnError>,
            | #[trigger]
                Self::built(
                    vectors,
                    None,
                    dist,
                    config,
                    None,
                    0,
                    base,
                    trained,
                    r,
                ),
            r matches Ok(index) ==> index.valid(),
    {
        Self::build(vectors, None, dist, config, None, 0)
    }

    /// Builds an index with labels.
    pub fn build_with_labels(
        vectors: &Vec<Vec<u32>>,
        labels: Vec<Vec<u64>>,
        dist: D,
        config: IncrementalConfig,
    ) -> (r: Result<Self, DiskAnnError>)
        requires
            index::can_be_laid_out(vectors@, index::BUILD_MAX_DEGREE as int),
            config.delta_params.max_degree * 2 <= usize::MAX,
        ensures
            exists|
                base: Result<DiskANN<'a, D>, DiskAnnError>,
                trained: Result<QuantizerState, DiskAnnError>,
            | #[trigger]
                Self::built(
                    vectors,
                    Some(labels@),
                    dist,
                    config,
                    None,
                    0,
                    base,
                    trained,
                    r,
                ),
            r matches Ok(index) ==> index.valid(),
    {
        Self::build(vectors, Some(labels), dist, config, None, 0)
    }

    /// Builds an index with half-precision codes.
    pub fn build_quantized_f16(
        vectors: &Vec<Vec<u32>>,
        dist: D,
        config: IncrementalConfig,
        quant_config: IncrementalQuantizedConfig,
    ) -> (r: Result<Self, DiskAnnError>)
        requires
            index::can_be_laid_out(vectors@, index::BUILD_MAX_DEGREE as int),
            config.delta_params.max_degree * 2 <= usize::MAX,
            (QuantizerKind::F16).can_train(vectors@),
        ensures
            exists|
                base: Result<DiskANN<'a, D>, DiskAnnError>,
                trained: Result<QuantizerState, DiskAnnError>,
            | #[trigger]
                Self::built(
                    vectors,
                    None,
                    dist,
                    config,
                    Some(QuantizerKind::F16),
                    quant_config.rerank_size,
                    base,
                    trained,
                    r,
                ),
            r matches Ok(index) ==> index.valid(),
    {
        Self::build(vectors, None, dist, config, Some(QuantizerKind::F16), quant_config.rerank_size)
    }

    /// Builds an index with one bit per dimension.
    pub fn build_quantized_rabitq(
        vectors: &Vec<Vec<u32>>,
        dist: D,
        config: IncrementalConfig,
        quant_config: IncrementalQuantizedConfig,
    ) -> (r: Result<Self, DiskAnnError>)
        requires
            index::can_be_laid_out(vectors@, index::BUILD_MAX_DEGREE as int),
            config.delta_params.max_degree * 2 <= usize::MAX,
            (QuantizerKind::RaBitQ).can_train(vectors@),
        ensures
            exists|
                base: Result<DiskANN<'a, D>, DiskAnnError>,
                trained: Result<QuantizerState, DiskAnnError>,
            | #[trigger]
                Self::built(
                    vectors,
                    None,
                    dist,
                    config,
                    Some(QuantizerKind::RaBitQ),
                    quant_config.rerank_size,
                    base,
                    trained,
                    r,
                ),
            r matches Ok(index) ==> index.valid(),
    {
        Self::build(vectors, None, dist, config, Some(QuantizerKind::RaBitQ), quant_config.rerank_size)
    }

    /// Builds an index with one byte per component.
    pub fn build_quantized_int8(
        vectors: &Vec<Vec<u32>>,
        dist: D,
        config: IncrementalConfig,
        quant_config: IncrementalQuantizedConfig,
    ) -> (r: Result<Self, DiskAnnError>)
        requires
            index::can_be_laid_out(vectors@, index::BUILD_MAX_DEGREE as int),
            config.delta_params.max_degree * 2 <= usize::MAX,
            (QuantizerKind::Int8).can_train(vectors@),
        ensures
            exists|
                base: Result<DiskANN<'a, D>, DiskAnnError>,
                trained: Result<QuantizerState, DiskAnnError>,
            | #[trigger]
                Self::built(
                    vectors,
                    None,
                    dist,
                    config,
                    Some(QuantizerKind::Int8),
                    quant_config.rerank_size,
                    base,
                    trained,
                    r,
                ),
            r matches Ok(index) ==> index.valid(),
    {
        Self::build(vectors, None, dist, config, Some(QuantizerKind::Int8), quant_config.rerank_size)
    }

    /// Builds an index with a product quantizer.
    pub fn build_quantized_pq(
        vectors: &Vec<Vec<u32>>,
        dist: D,
        config: IncrementalConfig,
        pq_config: PQConfig,
        quant_config: IncrementalQuantizedConfig,
    ) -> (r: Result<Self, DiskAnnError>)
        requires
            index::can_be_laid_out(vectors@, index::BUILD_MAX_DEGREE as int),
            config.delta_params.max_degree * 2 <= usize::MAX,
            QuantizerKind::PQ(pq_config).can_train(vectors@),
        ensures
            exists|
                base: Result<DiskANN<'a, D>, DiskAnnError>,
                trained: Result<QuantizerState, DiskAnnError>,
            | #[trigger]
                Self::built(
                    vectors,
                    None,
                    dist,
                    config,
                    Some(QuantizerKind::PQ(pq_config)),
                    quant_config.rerank_size,
                    base,
                    trained,
                    r,
                ),
            r matches Ok(index) ==> index.valid(),
    {
        Self::build(vectors, None, dist, config, Some(QuantizerKind::PQ(pq_config)), quant_config.rerank_size)
    }

    /// Builds an index with labels and a quantizer.
    pub fn build_full(
        vectors: &Vec<Vec<u32>>,
        labels: Vec<Vec<u64>>,
        dist: D,
        config: IncrementalConfig,
        quantizer_kind: QuantizerKind,
        quant_config: IncrementalQuantizedConfig,
    ) -> (r: Result<Self, DiskAnnError>)
        requires
            index::can_be_laid_out(vectors@, index::BUILD_MAX_DEGREE as int),
            config.delta_params.max_degree * 2 <= usize::MAX,
            quantizer_kind.can_train(vectors@),
        ensures
            exists|
                base: Result<DiskANN<'a, D>, DiskAnnError>,
                trained: Result<QuantizerState, DiskAnnError>,
            | #[trigger]
                Self::built(
                    vectors,
                    Some(labels@),
                    dist,
                    config,
                    Some(quantizer_kind),
                    quant_config.rerank_size,
                    base,
                    trained,
                    r,
                ),
            r matches Ok(index) ==> index.valid(),
    {
        Self::build(vectors, Some(labels), dist, config, Some(quantizer_kind), quant_config.rerank_size)
    }

    /// Builds an index with the default configuration.
    pub fn build_default(vectors: &Vec<Vec<u32>>, dist: D) -> (r: Result<Self, DiskAnnError>)
        requires
            index::can_be_laid_out(vectors@, index::BUILD_MAX_DEGREE as int),
        ensures
            exists|
                config: IncrementalConfig,
                base: Result<DiskANN<'a, D>, DiskAnnError>,
                trained: Result<QuantizerState, DiskAnnError>,
            | #[trigger]
                Self::built(vectors, None, dist, config, None, 0, base, trained, r)
                    && is_default(config),
            r matches Ok(index) ==> index.valid(),
    {
        let config = IncrementalConfig::default();
        let r = Self::build(vectors, None, dist, config, None, 0);
        proof {
            let (base, trained) = choose|
                base: Result<DiskANN<'a, D>, DiskAnnError>,
                trained: Result<QuantizerState, DiskAnnError>,
            | #[trigger]
                Self::built(vectors, None, dist, config, None, 0, base, trained, r);
            assert(Self::built(vectors, None, dist, config, None, 0, base, trained, r)
                && is_default(config));
        }
        r
    }

    /// Opening a base whose file reads as `base` gives `r`.
    pub open spec fn opened(
        base: Result<DiskANN<'a, D>, DiskAnnError>,
        dist: D,
        config: IncrementalConfig,
        r: Result<Self, DiskAnnError>,
    ) -> bool {
        match base {
            Ok(b) => {
                &&& r is Ok
                &&& r->Ok_0.base == Some(b)
                &&& r->Ok_0.dim == b.dim
                &&& r->Ok_0.dist == dist
                &&& r->Ok_0.config == config
                &&& r->Ok_0.is_clean()
                &&& r->Ok_0.is_plain()
            },
            Err(e) => r is Err && r->Err_0 == e,
        }
    }

    /// Opens an index whose base is mapped at `b`.
    pub fn open_with_config(b: &'a [u8], dist: D, config: IncrementalConfig) -> (r: Result<
        Self,
        DiskAnnError,
    >)
        ensures
            exists|header: Result<Metadata, DiskAnnError>, base: Result<DiskANN<'a, D>, DiskAnnError>|
                #[trigger] Self::opened_at(b@, dist, config, header, base, r),
    {
        let base = DiskANN::open_index_with(b, dist);
        let ghost kept = base;
        let ghost header = choose|header: Result<Metadata, DiskAnnError>| #[trigger]
            index::opened(b@, header) && DiskANN::loaded(header, b@, dist, kept);
        match base {
            Ok(index) => {
                let dim: usize = index.dim;
                let r: Result<Self, DiskAnnError> = Ok(
                    Self::assemble(Some(index), dim, dist, config),
                );
                assert(Self::opened_at(b@, dist, config, header, kept, r));
                r
            },
            Err(e) => {
                let r: Result<Self, DiskAnnError> = Err(e);
                assert(Self::opened_at(b@, dist, config, header, kept, r));
                r
            },
        }
    }

    /// Opening the bytes of a base gives `r`.
    pub open spec fn opened_at(
        b: Seq<u8>,
        dist: D,
        config: IncrementalConfig,
        header: Result<Metadata, DiskAnnError>,
        base: Result<DiskANN<'a, D>, DiskAnnError>,
        r: Result<Self, DiskAnnError>,
    ) -> bool {
        &&& index::opened(b, header)
        &&& DiskANN::loaded(header, b, dist, base)
        &&& Self::opened(base, dist, config, r)
    }

    /// Opens an index whose base is mapped at `b`, with the default configuration.
    pub fn open(b: &'a [u8], dist: D) -> (r: Result<Self, DiskAnnError>)
        ensures
            exists|
                config: IncrementalConfig,
                header: Result<Metadata, DiskAnnError>,
                base: Result<DiskANN<'a, D>, DiskAnnError>,
            | #[trigger]
                Self::opened_at(b@, dist, config, header, base, r) && is_default(config),
    {
        let config = IncrementalConfig::default();
        let r = Self::open_with_config(b, dist, config);
        proof {
            let (header, base) = choose|
                header: Result<Metadata, DiskAnnError>,
                base: Result<DiskANN<'a, D>, DiskAnnError>,
            | #[trigger]
                Self::opened_at(b@, dist, config, header, base, r);
            assert(Self::opened_at(b@, dist, config, header, base, r) && is_default(config));
        }
        r
    }
}

/// The rows of labels, where there are any.
pub open spec fn rows_in(labels: &Option<Vec<Vec<u64>>>) -> Option<Seq<Vec<u64>>> {
    match labels {
        Some(l) => Some(l@),
        None => None,
    }
}

/// The default configuration.
pub open spec fn is_default(config: IncrementalConfig) -> bool {
    &&& config.delta_threshold == 10_000
    &&& config.tombstone_ratio_threshold == DEFAULT_TOMBSTONE_RATIO
    &&& config.delta_params.max_degree == 32
    &&& config.delta_params.build_beam_width == 64
    &&& config.delta_params.alpha == delta::DELTA_ALPHA
}

/// What compaction puts in place of the base.
pub struct Compaction<'a, D: Distance> {
    pub base: DiskANN<'a, D>,
    pub labels: Option<Vec<Vec<u64>>>,
    pub codes: Option<Vec<u8>>,
}

impl<'a, D: Distance> IncrementalDiskANN<'a, D> {
    /// The positions below `n` whose vectors were not deleted, in order.
    pub open spec fn live_upto(&self, n: int) -> Seq<int>
        decreases n,
    {
        if n <= 0 {
            Seq::empty()
        } else if self.live_at(n - 1) {
            self.live_upto(n - 1).push(n - 1)
        } else {
            self.live_upto(n - 1)
        }
    }

    /// The positions whose vectors were not deleted, in order.
    pub open spec fn live(&self) -> Seq<int> {
        self.live_upto(self.total())
    }

    /// The labels that compaction keeps for a position.
    pub open spec fn kept_label(&self, pos: int) -> Seq<u64> {
        match self.label_at(pos) {
            Some(l) => l,
            None => zeros(self.num_label_fields as int),
        }
    }

    /// The live vectors, in order.
    pub open spec fn holds_live(&self, all: Seq<Vec<u32>>) -> bool {
        &&& all.len() == self.live().len()
        &&& forall|i: int|
            0 <= i < all.len() ==> (#[trigger] all[i])@ == self.vector_at(self.live()[i])
    }

    /// The labels of the live vectors, in order, where there are labels.
    pub open spec fn holds_live_labels(&self, labels: &Option<Vec<Vec<u64>>>) -> bool {
        match labels {
            Some(l) => {
                &&& self.base_labels is Some
                &&& l@.len() == self.live().len()
                &&& forall|i: int|
                    0 <= i < l@.len() ==> (#[trigger] l@[i])@ == self.kept_label(self.live()[i])
            },
            None => self.base_labels is None,
        }
    }

    /// The vectors of the base have labels, if there are labels.
    pub open spec fn labels_cover(&self) -> bool {
        self.base_labels matches Some(l) ==> l@.len() >= self.base_count()
    }

    /// The sizes of an index with all the vectors can be told in machine words.
    pub open spec fn can_compact(&self) -> bool {
        &&& self.labels_cover()
        &&& index::slot(
            index::slot(index::VECTORS_OFFSET as int, self.total(), self.dim as int),
            self.total(),
            index::BUILD_MAX_DEGREE as int,
        ) <= usize::MAX
    }

    fn collect_live(&self) -> (r: (Vec<Vec<u32>>, Option<Vec<Vec<u64>>>))
        requires
            self.valid(),
            self.labels_cover(),
        ensures
            self.holds_live(r.0@),
            self.holds_live_labels(&r.1),
            kmeans::level(r.0@, self.dim as int),
            r.0@.len() <= self.total(),
    {
        broadcast use vstd::std_specs::hash::group_hash_axioms;

        let labelled: bool = self.base_labels.is_some();
        let view = UnifiedView { index: self, query: &[], prep: None, filter: None };
        let total: u32 = view.base_count() as u32 + self.delta.len() as u32;
        let mut all: Vec<Vec<u32>> = Vec::new();
        let mut labels: Vec<Vec<u64>> = Vec::new();
        let mut pos: u32 = 0;
        while pos < total
            invariant
                pos <= total == self.total(),
                self.valid(),
                self.labels_cover(),
                labelled == (self.base_labels is Some),
                view.index == self,
                all@.len() == self.live_upto(pos as int).len() <= pos,
                kmeans::level(all@, self.dim as int),
                forall|i: int|
                    0 <= i < all@.len() ==> (#[trigger] all@[i])@ == self.vector_at(
                        self.live_upto(pos as int)[i],
                    ),
                labelled ==> labels@.len() == all@.len() && forall|i: int|
                    0 <= i < labels@.len() ==> (#[trigger] labels@[i])@ == self.kept_label(
                        self.live_upto(pos as int)[i],
                    ),
            decreases total - pos,
        {
            broadcast use vstd::std_specs::hash::group_hash_axioms;

            let base_count: usize = view.base_count();
            if !self.tombstones.contains(&view.to_global_u64(pos)) {
                let ghost before = self.live_upto(pos as int);
                let v: Vec<u32> = if (pos as usize) < base_count {
                    match &self.base {
                        Some(b) => {
                            proof {
                                b.lemma_has(pos as int);
                            }
                            b.get_vector(pos as usize)
                        },
                        None => Vec::new(),
                    }
                } else {
                    let local: usize = pos as usize - base_count;
                    assert(self.delta.vectors@[local as int]@.len() == self.dim);
                    let v = self.delta.vectors[local].clone();
                    assert(v@ =~= self.delta.vectors@[local as int]@);
                    v
                };
                assert(v@ == self.vector_at(pos as int));
                assert(v@.len() == self.dim);
                all.push(v);
                if labelled {
                    let l: Vec<u64> = match view.label_of(pos) {
                        Some(l) => {
                            let c = l.clone();
                            assert(c@ =~= l@);
                            c
                        },
                        None => zero_row(self.num_label_fields),
                    };
                    labels.push(l);
                }
                assert(self.live_upto(pos + 1) == before.push(pos as int));
            }
            pos = pos + 1;
        }
        if labelled {
            (all, Some(labels))
        } else {
            (all, None)
        }
    }

    /// Building what is to take the place of the base gives `r`: `all` are the live
    /// vectors, and `base` is what building an index over them gives.
    pub open spec fn rebuilt(
        &self,
        all: Vec<Vec<u32>>,
        base: Result<DiskANN<'a, D>, DiskAnnError>,
        r: Result<Compaction<'a, D>, DiskAnnError>,
    ) -> bool {
        &&& self.holds_live(all@)
        &&& if self.live().len() == 0 {
            r is Err && r->Err_0 == DiskAnnError::IndexError(Fault::NothingToCompact)
        } else {
            &&& DiskANN::built(
                &all,
                index::BUILD_MAX_DEGREE as int,
                index::BUILD_BEAM_WIDTH as int,
                index::DISKANN_DEFAULT_ALPHA,
                self.dist,
                base,
            )
            &&& match base {
                Err(e) => r is Err && r->Err_0 == e,
                Ok(b) => {
                    &&& r is Ok
                    &&& r->Ok_0.base == b
                    &&& self.holds_live_labels(&r->Ok_0.labels)
                    &&& match self.quantizer {
                        Some(q) => r->Ok_0.codes is Some && r->Ok_0.codes->0@
                            == quantizer::codes_of(
                            &q,
                            self.dist,
                            crate::metric::rows(all@),
                            all@.len() as int,
                        ),
                        None => r->Ok_0.codes is None,
                    }
                },
            }
        }
    }

    /// Builds what is to take the place of the base.
    pub fn rebuild(&self) -> (r: Result<Compaction<'a, D>, DiskAnnError>)
        requires
            self.valid(),
            self.can_compact(),
        ensures
            exists|all: Vec<Vec<u32>>, base: Result<DiskANN<'a, D>, DiskAnnError>| #[trigger]
                self.rebuilt(all, base, r),
            r matches Ok(c) ==> self.fits_compaction(&c),
    {
        let (all, labels) = self.collect_live();
        let ghost no_base: Result<DiskANN<'a, D>, DiskAnnError> = Err(DiskAnnError::UnexpectedEof);
        if all.len() == 0 {
            let r: Result<Compaction<'a, D>, DiskAnnError> = Err(
                DiskAnnError::IndexError(Fault::NothingToCompact),
            );
            assert(self.rebuilt(all, no_base, r));
            return r;
        }
        proof {
            let n = all@.len() as int;
            let t = self.total();
            let dim = self.dim as int;
            assert(all@[0]@.len() == dim);
            assert(n * dim <= t * dim && n * 64 <= t * 64) by (nonlinear_arith)
                requires
                    0 <= n <= t,
                    0 <= dim,
            ;
        }
        let base = DiskANN::build_index_default(&all, self.dist);
        let ghost kept = base;
        match base {
            Err(e) => {
                let r: Result<Compaction<'a, D>, DiskAnnError> = Err(e);
                assert(self.rebuilt(all, kept, r));
                r
            },
            Ok(index) => {
                proof {
                    let params = DiskAnnParams {
                        max_degree: index::BUILD_MAX_DEGREE,
                        build_beam_width: index::BUILD_BEAM_WIDTH,
                        alpha: index::DISKANN_DEFAULT_ALPHA,
                    };
                    quantized::lemma_built_shape(&all, params, self.dist, kept);
                }
                let codes: Option<Vec<u8>> = match &self.quantizer {
                    Some(q) => Some(quantizer::encode_all(q, self.dist, &all)),
                    None => None,
                };
                let r: Result<Compaction<'a, D>, DiskAnnError> = Ok(
                    Compaction { base: index, labels, codes },
                );
                assert(self.rebuilt(all, kept, r));
                r
            },
        }
    }

    /// What was rebuilt goes with the rest of the index.
    pub open spec fn fits_compaction(&self, c: &Compaction<'a, D>) -> bool {
        &&& c.base.valid()
        &&& c.base.dim == self.dim
        &&& c.base.num_vectors < u32::MAX
        &&& self.quantizer matches Some(q) ==> c.codes matches Some(codes)
            ==> quantizer::holds_codes(&q, codes@, c.base.num_vectors as int)
    }

    /// The base was replaced.
    pub open spec fn installed(pre: &Self, c: Compaction<'a, D>, post: &Self) -> bool {
        &&& post.base == Some(c.base)
        &&& post.base_labels == c.labels
        &&& post.base_codes == c.codes
        &&& post.dist == pre.dist
        &&& post.config == pre.config
        &&& post.dim == pre.dim
        &&& post.num_label_fields == pre.num_label_fields
        &&& post.quantizer == pre.quantizer
        &&& post.code_size == pre.code_size
        &&& post.rerank_size == pre.rerank_size
        &&& post.is_clean()
    }

    /// Puts what was rebuilt in the place of the base, the added vectors and what was
    /// deleted.
    pub fn install(&mut self, c: Compaction<'a, D>)
        requires
            old(self).valid(),
            old(self).fits_compaction(&c),
            old(self).config.delta_params.max_degree * 2 <= usize::MAX,
        ensures
            final(self).valid(),
            Self::installed(&*old(self), c, &*final(self)),
    {
        broadcast use vstd::std_specs::hash::group_hash_axioms;

        self.base = Some(c.base);
        self.delta = DeltaLayer::new(self.config.delta_params.max_degree);
        self.tombstones = HashSet::new();
        self.base_labels = c.labels;
        self.delta_labels = Vec::new();
        self.base_codes = c.codes;
    }

    /// What `compact` does: it leaves the index as it is when rebuilding fails.
    pub open spec fn compacted(
        pre: &Self,
        all: Vec<Vec<u32>>,
        base: Result<DiskANN<'a, D>, DiskAnnError>,
        c: Result<Compaction<'a, D>, DiskAnnError>,
        post: &Self,
        r: Result<(), DiskAnnError>,
    ) -> bool {
        &&& pre.rebuilt(all, base, c)
        &&& match c {
            Ok(c) => r is Ok && Self::installed(pre, c, post),
            Err(e) => r is Err && r->Err_0 == e && *post == *pre,
        }
    }

    /// Builds a new base from the vectors that were not deleted.
    pub fn compact(&mut self) -> (r: Result<(), DiskAnnError>)
        requires
            old(self).valid(),
            old(self).can_compact(),
            old(self).config.delta_params.max_degree * 2 <= usize::MAX,
        ensures
            final(self).valid(),
            exists|
                all: Vec<Vec<u32>>,
                base: Result<DiskANN<'a, D>, DiskAnnError>,
                c: Result<Compaction<'a, D>, DiskAnnError>,
            | #[trigger]
                Self::compacted(&*old(self), all, base, c, &*final(self), r),
    {
        let ghost pre = *self;
        let c = self.rebuild();
        let ghost kept = c;
        let ghost (all, base) = choose|
            all: Vec<Vec<u32>>,
            base: Result<DiskANN<'a, D>, DiskAnnError>,
        | #[trigger]
            pre.rebuilt(all, base, kept);
        match c {
            Ok(c) => {
                self.install(c);
                let r: Result<(), DiskAnnError> = Ok(());
                assert(Self::compacted(&pre, all, base, kept, &*self, r));
                r
            },
            Err(e) => {
                let r: Result<(), DiskAnnError> = Err(e);
                assert(Self::compacted(&pre, all, base, kept, &*self, r));
                r
            },
        }
    }

    proof fn lemma_live(&self, n: int)
        requires
            n >= 0,
        ensures
            self.live_upto(n).len() <= n,
            forall|i: int|
                0 <= i < self.live_upto(n).len() ==> 0 <= #[trigger] self.live_upto(n)[i] < n
                    && self.live_at(self.live_upto(n)[i]),
            forall|pos: int|
                0 <= pos < n && #[trigger] self.live_at(pos) ==> self.live_upto(n).contains(pos),
            forall|i: int, j: int|
                0 <= i < j < self.live_upto(n).len() ==> #[trigger] self.live_upto(n)[i]
                    < #[trigger] self.live_upto(n)[j],
        decreases n,
    {
        if n > 0 {
            self.lemma_live(n - 1);
            let before = self.live_upto(n - 1);
            let now = self.live_upto(n);
            assert forall|pos: int| 0 <= pos < n && #[trigger] self.live_at(pos) implies now.contains(
                pos,
            ) by {
                if pos == n - 1 {
                    assert(now[before.len() as int] == pos);
                } else {
                    assert(before.contains(pos));
                    let m = choose|m: int| 0 <= m < before.len() && before[m] == pos;
                    assert(now[m] == pos);
                }
            }
        }
    }
}

/// Compaction keeps exactly the vectors that were not deleted, in their order, with
/// their labels, and nothing is deleted afterwards.
pub proof fn compaction_keeps_live<D: Distance>(
    pre: &IncrementalDiskANN<D>,
    all: Vec<Vec<u32>>,
    base: Result<DiskANN<D>, DiskAnnError>,
    c: Result<Compaction<D>, DiskAnnError>,
    post: &IncrementalDiskANN<D>,
    r: Result<(), DiskAnnError>,
)
    requires
        pre.valid(),
        IncrementalDiskANN::compacted(pre, all, base, c, post, r),
        r is Ok,
    ensures
        post.total() == pre.live().len(),
        forall|i: int|
            0 <= i < post.total() ==> {
                &&& post.vector_at(i) == pre.vector_at(#[trigger] pre.live()[i])
                &&& post.live_at(i)
                &&& post.base_labels is Some ==> post.label_at(i) == Some(
                    pre.kept_label(pre.live()[i]),
                )
            },
        forall|i: int| 0 <= i < pre.live().len() ==> pre.live_at(#[trigger] pre.live()[i]),
        forall|pos: int|
            0 <= pos < pre.total() && #[trigger] pre.live_at(pos) ==> pre.live().contains(pos),
        forall|i: int, j: int|
            0 <= i < j < pre.live().len() ==> #[trigger] pre.live()[i] < #[trigger] pre.live()[j],
{
    pre.lemma_live(pre.total());
    let b = base->Ok_0;
    assert(b.is_built_from(
        &all,
        index::BUILD_MAX_DEGREE as int,
        index::BUILD_BEAM_WIDTH as int,
        index::DISKANN_DEFAULT_ALPHA,
        pre.dist,
    ));
    assert forall|i: int| 0 <= i < post.total() implies {
        &&& post.vector_at(i) == pre.vector_at(#[trigger] pre.live()[i])
        &&& post.live_at(i)
        &&& post.base_labels is Some ==> post.label_at(i) == Some(pre.kept_label(pre.live()[i]))
    } by {
        assert(b.vector(i) == all@[i]@);
        if post.base_labels is Some {
            assert(post.base_labels->0@[i]@ == pre.kept_label(pre.live()[i]));
        }
    }
}

} // verus!
