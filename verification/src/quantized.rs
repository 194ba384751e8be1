//! An index that searches by codes of its vectors.
use crate::beam;
use crate::beam::BeamSearchConfig;
use crate::beam::SearchSpace;
use crate::beam::Trace;
use crate::beam::beam_search;
use crate::bytes;
use crate::candidate;
use crate::candidate::Candidate;
use crate::candidate::take_lowest;
use crate::error::DiskAnnError;
use crate::error::Fault;
use crate::filter::Filter;
use crate::filtered;
use crate::index;
use crate::index::DiskANN;
use crate::index::DiskAnnParams;
use crate::index::Metadata;
use crate::kmeans;
use crate::metric::Distance;
use crate::pq;
use crate::pq::PQConfig;
use crate::pq::ProductQuantizer;
use crate::quantizer;
use crate::quantizer::Prepared;
use crate::quantizer::QuantizerState;
use crate::rabitq;
use crate::rabitq::RaBitQ;
use crate::sq;
use crate::sq::F16Quantizer;
use crate::sq::Int8Quantizer;
use vstd::prelude::*;

verus! {

/// The first word of quantized data: "QANN".
pub const MAGIC: u32 = 0x5141_4e4e;

/// The version of quantized data that is written, and the only one that is read.
pub const VERSION: u32 = 1;

/// How codes are used.
#[derive(Clone, Copy, Debug)]
pub struct QuantizedConfig {
    /// How many of the best by code are compared again by their vectors; 0 for none.
    pub rerank_size: usize,
}

impl Default for QuantizedConfig {
    fn default() -> (r: Self)
        ensures
            r.rerank_size == 0,
    {
        QuantizedConfig { rerank_size: 0 }
    }
}

/// An index with a code for each of its vectors.
pub struct QuantizedDiskANN<'a, D: Distance> {
    pub base: DiskANN<'a, D>,
    /// The codes, one after the other.
    pub codes: Vec<u8>,
    /// Bytes of a code.
    pub code_size: usize,
    pub quantizer: QuantizerState,
    pub rerank_size: usize,
}

/// An index as one query searches it by codes.
pub struct CodeSpace<'a, 'b, D: Distance> {
    pub index: &'b QuantizedDiskANN<'a, D>,
    pub query: &'b [u32],
    pub prep: &'b Prepared,
    pub filter: Option<(&'b Vec<Vec<u64>>, &'b Filter)>,
}

impl<'a, D: Distance> QuantizedDiskANN<'a, D> {
    /// The index can be searched, and its codes are codes of its quantizer.
    pub open spec fn valid(&self) -> bool {
        &&& self.base.valid()
        &&& self.quantizer.wf()
        &&& self.quantizer.dim_of() == self.base.dim
        &&& self.code_size == self.quantizer.code_len()
        &&& self.codes@.len() == self.base.num_vectors * self.code_size
        &&& quantizer::holds_codes(
            &self.quantizer,
            self.codes@,
            self.base.num_vectors as int,
        )
    }

    /// The code of a vector.
    pub open spec fn code(&self, id: int) -> Seq<u8> {
        quantizer::code_at(self.codes@, id, self.quantizer.code_len())
    }

    /// Whether the index can be searched.
    pub fn validate(&self) -> (r: bool)
        ensures
            r == self.valid(),
    {
        self.base.validate() && self.quantizer.validate() && self.quantizer.dim() == self.base.dim
            && self.code_size == self.quantizer.code_size() && quantizer::check_codes(
            &self.quantizer,
            &self.codes,
            self.base.num_vectors,
        ) && self.codes.len() == self.base.num_vectors * self.code_size
    }
}

impl<'a, 'b, D: Distance> SearchSpace for CodeSpace<'a, 'b, D> {
    open spec fn holds(&self, id: u32) -> bool {
        &&& self.index.valid()
        &&& self.query@.len() == self.index.base.dim
        &&& self.index.quantizer.is_prepared(self.index.base.dist, self.query@, self.prep)
        &&& id < self.index.base.num_vectors
        &&& self.filter matches Some(f) ==> f.0@.len() == self.index.base.num_vectors
    }

    open spec fn dist_of(&self, id: u32) -> u32 {
        self.index.quantizer.distance_of(
            self.index.base.dist,
            self.query@,
            self.index.code(id as int),
        )
    }

    open spec fn links_of(&self, id: u32) -> Seq<u32> {
        self.index.base.links(id as int)
    }

    open spec fn keeps(&self, id: u32) -> bool {
        match self.filter {
            Some(f) => f.1.accepts(f.0@[id as int]@),
            None => true,
        }
    }

    open spec fn scaled(&self, dist: u32, factor: u32) -> u32 {
        self.index.base.dist.product_spec(dist, factor)
    }

    fn distance(&self, id: u32) -> (d: u32) {
        proof {
            pq::lemma_flat_bounds(
                id as int,
                self.index.base.num_vectors as int,
                self.index.code_size as int,
            );
            assert(self.index.quantizer.is_code(self.index.code(id as int)));
        }
        let code = quantizer::code_slice(&self.index.codes, id as usize, self.index.code_size);
        self.index.quantizer.distance(self.index.base.dist, self.query, self.prep, code)
    }

    fn neighbors(&self, id: u32) -> (r: Vec<u32>) {
        proof {
            self.index.base.lemma_has(id as int);
        }
        self.index.base.real_neighbors(id)
    }

    fn keep(&self, id: u32) -> (r: bool) {
        match self.filter {
            Some(f) => f.1.matches(f.0[id as usize].as_slice()),
            None => true,
        }
    }

    fn scale(&self, dist: u32, factor: u32) -> (r: u32) {
        self.index.base.dist.product(dist, factor)
    }
}

pub proof fn lemma_code_space_closed<D: Distance>(space: &CodeSpace<D>)
    ensures
        beam::is_closed(space),
{
    assert forall|id: u32, i: int|
        space.holds(id) && 0 <= i < space.links_of(id).len() implies space.holds(
        #[trigger] space.links_of(id)[i],
    ) by {
        index::links_are_sound(&space.index.base, id as int);
    }
}

/// Candidates with their distances computed from their vectors.
pub open spec fn rescored<D: Distance>(
    base: &DiskANN<D>,
    query: Seq<u32>,
    found: Seq<Candidate>,
) -> Seq<Candidate> {
    Seq::new(
        found.len(),
        |i: int|
            Candidate {
                dist: base.dist.eval_spec(query, base.vector(found[i].id as int)),
                id: found[i].id,
            },
    )
}

/// How many candidates the search by codes is asked for.
pub open spec fn search_k(rerank_size: int, k: int) -> int {
    if rerank_size > k {
        rerank_size
    } else {
        k
    }
}

impl<'a, D: Distance> QuantizedDiskANN<'a, D> {
    /// What a search by codes returns: what the beam search found, compared again by
    /// vectors where that is asked for.
    pub open spec fn search_result(
        &self,
        query: &[u32],
        filter: Option<(&Vec<Vec<u64>>, &Filter)>,
        k: int,
        beam_width: int,
        config: BeamSearchConfig,
        prep: Prepared,
        t: Trace,
        found: Seq<Candidate>,
        r: Seq<Candidate>,
    ) -> bool {
        let space = CodeSpace { index: self, query, prep: &prep, filter };
        &&& self.quantizer.is_prepared(self.base.dist, query@, &prep)
        &&& beam::search_outcome(
            &space,
            seq![self.base.medoid_id],
            beam_width,
            search_k(self.rerank_size as int, k),
            config,
            t,
            found,
        )
        &&& if self.rerank_size > 0 {
            candidate::lowest(rescored(&self.base, query@, found), k, r)
        } else {
            r == found
        }
    }

    #[verifier::rlimit(40)]
    fn quantized_search(
        &self,
        query: &[u32],
        filter: Option<(&Vec<Vec<u64>>, &Filter)>,
        k: usize,
        beam_width: usize,
        config: BeamSearchConfig,
    ) -> (r: Vec<Candidate>)
        requires
            self.valid(),
            query@.len() == self.base.dim,
            filter matches Some(f) ==> f.0@.len() == self.base.num_vectors,
        ensures
            exists|prep: Prepared, t: Trace, found: Seq<Candidate>| #[trigger]
                self.search_result(
                    query,
                    filter,
                    k as int,
                    beam_width as int,
                    config,
                    prep,
                    t,
                    found,
                    r@,
                ),
    {
        let prep = self.quantizer.prepare(self.base.dist, query);
        let space = CodeSpace { index: self, query, prep: &prep, filter };
        let starts: Vec<u32> = vec![self.base.medoid_id];
        proof {
            lemma_code_space_closed(&space);
            assert(starts@ =~= seq![self.base.medoid_id]);
        }
        let wanted: usize = if self.rerank_size > k {
            self.rerank_size
        } else {
            k
        };
        let found = beam_search(&space, starts.as_slice(), beam_width, wanted, config);
        let ghost t = choose|t: Trace| #[trigger]
            beam::search_outcome(
                &space,
                starts@,
                beam_width as int,
                wanted as int,
                config,
                t,
                found@,
            );
        proof {
            beam::answers_are_sound(
                &space,
                starts@,
                beam_width as int,
                wanted as int,
                config,
                t,
                found@,
            );
        }
        if self.rerank_size == 0 {
            assert(self.search_result(
                query,
                filter,
                k as int,
                beam_width as int,
                config,
                prep,
                t,
                found@,
                found@,
            ));
            return found;
        }
        let mut again: Vec<Candidate> = Vec::new();
        let mut i: usize = 0;
        while i < found.len()
            invariant
                i <= found@.len(),
                self.valid(),
                query@.len() == self.base.dim,
                forall|j: int|
                    0 <= j < found@.len() ==> (#[trigger] found@[j]).id < self.base.num_vectors,
                again@.len() == i,
                forall|j: int|
                    0 <= j < i ==> #[trigger] again@[j] == rescored(
                        &self.base,
                        query@,
                        found@,
                    )[j],
            decreases found@.len() - i,
        {
            let id: u32 = found[i].id;
            proof {
                self.base.lemma_has(id as int);
            }
            let dist: u32 = self.base.distance_to(query, id as usize);
            again.push(Candidate { dist, id });
            i = i + 1;
        }
        assert(again@ =~= rescored(&self.base, query@, found@));
        let r = take_lowest(again, k);
        assert(self.search_result(
            query,
            filter,
            k as int,
            beam_width as int,
            config,
            prep,
            t,
            found@,
            r@,
        ));
        r
    }

    /// Searches by codes; the `k` best, nearest first. Distances are those of the codes,
    /// or of the vectors where candidates are compared again.
    pub fn search_with_dists(&self, query: &[u32], k: usize, beam_width: usize) -> (r: Vec<
        Candidate,
    >)
        requires
            self.valid(),
            query@.len() == self.base.dim,
        ensures
            exists|prep: Prepared, t: Trace, found: Seq<Candidate>| #[trigger]
                self.search_result(
                    query,
                    None,
                    k as int,
                    beam_width as int,
                    beam::unbounded(),
                    prep,
                    t,
                    found,
                    r@,
                ),
    {
        self.quantized_search(query, None, k, beam_width, BeamSearchConfig::default())
    }

    /// The ids that `search_with_dists` returns.
    pub fn search(&self, query: &[u32], k: usize, beam_width: usize) -> (r: Vec<u32>)
        requires
            self.valid(),
            query@.len() == self.base.dim,
        ensures
            self.answers(query@, k as int, beam_width as int, r@),
    {
        let found = self.search_with_dists(query, k, beam_width);
        index::ids_of(&found)
    }

    /// The ids are those of a search for the query.
    pub open spec fn answers(&self, query: Seq<u32>, k: int, beam_width: int, r: Seq<u32>) -> bool {
        exists|q: &[u32], prep: Prepared, t: Trace, found: Seq<Candidate>, kept: Seq<Candidate>|
            #[trigger] self.search_result(
                q,
                None,
                k,
                beam_width,
                beam::unbounded(),
                prep,
                t,
                found,
                kept,
            ) && q@ == query && r == index::ids(kept)
    }

    /// A search for each query.
    pub fn search_batch(&self, queries: &Vec<Vec<u32>>, k: usize, beam_width: usize) -> (r: Vec<
        Vec<u32>,
    >)
        requires
            self.valid(),
            kmeans::level(queries@, self.base.dim as int),
        ensures
            r@.len() == queries@.len(),
            forall|i: int|
                0 <= i < r@.len() ==> self.answers(
                    queries@[i]@,
                    k as int,
                    beam_width as int,
                    (#[trigger] r@[i])@,
                ),
    {
        let mut r: Vec<Vec<u32>> = Vec::new();
        let mut i: usize = 0;
        while i < queries.len()
            invariant
                i <= queries@.len(),
                self.valid(),
                kmeans::level(queries@, self.base.dim as int),
                r@.len() == i,
                forall|j: int|
                    0 <= j < i ==> self.answers(
                        queries@[j]@,
                        k as int,
                        beam_width as int,
                        (#[trigger] r@[j])@,
                    ),
            decreases queries@.len() - i,
        {
            assert(queries@[i as int]@.len() == self.base.dim);
            let found = self.search(queries[i].as_slice(), k, beam_width);
            r.push(found);
            i = i + 1;
        }
        r
    }

    /// Searches by codes among the vectors whose labels a filter accepts.
    pub fn search_filtered_with_dists(
        &self,
        query: &[u32],
        k: usize,
        beam_width: usize,
        labels: &Vec<Vec<u64>>,
        filter: &Filter,
    ) -> (r: Vec<Candidate>)
        requires
            self.valid(),
            query@.len() == self.base.dim,
            labels@.len() == self.base.num_vectors,
            filtered::can_widen(beam_width as int, k as int),
        ensures
            exists|prep: Prepared, t: Trace, found: Seq<Candidate>| #[trigger]
                self.filtered_result(
                    query,
                    labels,
                    filter,
                    k as int,
                    beam_width as int,
                    prep,
                    t,
                    found,
                    r@,
                ),
    {
        let plain: bool = match filter {
            Filter::NoFilter => true,
            _ => false,
        };
        if plain {
            let r = self.search_with_dists(query, k, beam_width);
            proof {
                let (prep, t, found) = choose|prep: Prepared, t: Trace, found: Seq<Candidate>|
                    #[trigger] self.search_result(
                        query,
                        None,
                        k as int,
                        beam_width as int,
                        beam::unbounded(),
                        prep,
                        t,
                        found,
                        r@,
                    );
                assert(self.filtered_result(
                    query,
                    labels,
                    filter,
                    k as int,
                    beam_width as int,
                    prep,
                    t,
                    found,
                    r@,
                ));
            }
            return r;
        }
        let config = filtered::widen(beam_width, k);
        let r = self.quantized_search(query, Some((labels, filter)), k, beam_width, config);
        proof {
            let (prep, t, found) = choose|prep: Prepared, t: Trace, found: Seq<Candidate>|
                #[trigger] self.search_result(
                    query,
                    Some((labels, filter)),
                    k as int,
                    beam_width as int,
                    config,
                    prep,
                    t,
                    found,
                    r@,
                );
            assert(self.filtered_result(
                query,
                labels,
                filter,
                k as int,
                beam_width as int,
                prep,
                t,
                found,
                r@,
            ));
        }
        r
    }

    /// What a filtered search by codes returns.
    pub open spec fn filtered_result(
        &self,
        query: &[u32],
        labels: &Vec<Vec<u64>>,
        filter: &Filter,
        k: int,
        beam_width: int,
        prep: Prepared,
        t: Trace,
        found: Seq<Candidate>,
        r: Seq<Candidate>,
    ) -> bool {
        if filter is NoFilter {
            self.search_result(
                query,
                None,
                k,
                beam_width,
                beam::unbounded(),
                prep,
                t,
                found,
                r,
            )
        } else {
            self.search_result(
                query,
                Some((labels, filter)),
                k,
                beam_width,
                filtered::filtered_config(beam_width, k),
                prep,
                t,
                found,
                r,
            )
        }
    }

    /// The ids that `search_filtered_with_dists` returns.
    pub fn search_filtered(
        &self,
        query: &[u32],
        k: usize,
        beam_width: usize,
        labels: &Vec<Vec<u64>>,
        filter: &Filter,
    ) -> (r: Vec<u32>)
        requires
            self.valid(),
            query@.len() == self.base.dim,
            labels@.len() == self.base.num_vectors,
            filtered::can_widen(beam_width as int, k as int),
        ensures
            exists|prep: Prepared, t: Trace, found: Seq<Candidate>, kept: Seq<Candidate>| #[trigger]
                self.filtered_result(
                    query,
                    labels,
                    filter,
                    k as int,
                    beam_width as int,
                    prep,
                    t,
                    found,
                    kept,
                ) && r@ == index::ids(kept),
    {
        let found = self.search_filtered_with_dists(query, k, beam_width, labels, filter);
        index::ids_of(&found)
    }

    pub fn num_vectors(&self) -> (r: usize)
        ensures
            r == self.base.num_vectors,
    {
        self.base.num_vectors
    }

    pub fn dim(&self) -> (r: usize)
        ensures
            r == self.base.dim,
    {
        self.base.dim
    }

    /// The index of the vectors.
    pub fn base(&self) -> (r: &DiskANN<'a, D>)
        ensures
            *r == self.base,
    {
        &self.base
    }

    /// The vector at a position.
    pub fn get_vector(&self, idx: usize) -> (r: Vec<u32>)
        requires
            self.base.has_vector(idx as int),
        ensures
            r@ == self.base.vector(idx as int),
    {
        self.base.get_vector(idx)
    }
}

/// The vectors of an index.
pub fn all_vectors<D: Distance>(base: &DiskANN<D>) -> (r: Vec<Vec<u32>>)
    requires
        base.valid(),
    ensures
        r@.len() == base.num_vectors,
        kmeans::level(r@, base.dim as int),
        forall|i: int| 0 <= i < r@.len() ==> (#[trigger] r@[i])@ == base.vector(i),
{
    let mut r: Vec<Vec<u32>> = Vec::new();
    let mut i: usize = 0;
    while i < base.num_vectors
        invariant
            i <= base.num_vectors,
            base.valid(),
            r@.len() == i,
            kmeans::level(r@, base.dim as int),
            forall|j: int| 0 <= j < i ==> (#[trigger] r@[j])@ == base.vector(j),
        decreases base.num_vectors - i,
    {
        proof {
            base.lemma_has(i as int);
        }
        let v = base.get_vector(i);
        r.push(v);
        i = i + 1;
    }
    r
}

impl<'a, D: Distance> QuantizedDiskANN<'a, D> {
    /// The index has this base and quantizer, and its codes are those of its vectors.
    pub open spec fn is_made_of(
        &self,
        base: DiskANN<'a, D>,
        quantizer: QuantizerState,
        config: QuantizedConfig,
    ) -> bool {
        &&& self.base == base
        &&& self.quantizer == quantizer
        &&& self.rerank_size == config.rerank_size
        &&& self.valid()
        &&& self.codes@.len() == base.num_vectors * self.code_size
        &&& forall|i: int|
            0 <= i < base.num_vectors ==> #[trigger] self.code(i) == quantizer.code_of(
                base.dist,
                base.vector(i),
            )
    }

    /// Codes the vectors of an index.
    pub fn from_quantizer(
        base: DiskANN<'a, D>,
        quantizer: QuantizerState,
        config: QuantizedConfig,
    ) -> (r: Self)
        requires
            base.valid(),
            quantizer.wf(),
            quantizer.dim_of() == base.dim,
        ensures
            r.is_made_of(base, quantizer, config),
    {
        let vectors = all_vectors(&base);
        let codes = quantizer::encode_all(&quantizer, base.dist, &vectors);
        let code_size: usize = quantizer.code_size();
        let ghost kept = codes@;
        let r = QuantizedDiskANN {
            base,
            codes,
            code_size,
            quantizer,
            rerank_size: config.rerank_size,
        };
        proof {
            assert forall|i: int| 0 <= i < r.base.num_vectors implies #[trigger] r.code(i)
                == r.quantizer.code_of(r.base.dist, r.base.vector(i)) by {
                assert(vectors@[i]@ == r.base.vector(i));
            }
        }
        r
    }

    pub fn from_pq(base: DiskANN<'a, D>, pq: ProductQuantizer, config: QuantizedConfig) -> (r: Self)
        requires
            base.valid(),
            pq.wf(),
            pq.num_centroids > 0,
            pq.dim == base.dim,
        ensures
            r.is_made_of(base, QuantizerState::PQ(pq), config),
    {
        Self::from_quantizer(base, QuantizerState::PQ(pq), config)
    }

    pub fn from_f16(base: DiskANN<'a, D>, config: QuantizedConfig) -> (r: Self)
        requires
            base.valid(),
            2 * base.dim <= usize::MAX,
        ensures
            r.is_made_of(base, QuantizerState::F16(F16Quantizer { dim: base.dim }), config),
    {
        let q = F16Quantizer::new(base.dim);
        Self::from_quantizer(base, QuantizerState::F16(q), config)
    }

    pub fn from_rabitq(base: DiskANN<'a, D>, rq: RaBitQ, config: QuantizedConfig) -> (r: Self)
        requires
            base.valid(),
            rq.wf(),
            rq.dim == base.dim,
        ensures
            r.is_made_of(base, QuantizerState::RaBitQ(rq), config),
    {
        Self::from_quantizer(base, QuantizerState::RaBitQ(rq), config)
    }

    pub fn from_int8(base: DiskANN<'a, D>, int8q: Int8Quantizer, config: QuantizedConfig) -> (r:
        Self)
        requires
            base.valid(),
            int8q.wf(),
            int8q.dim == base.dim,
        ensures
            r.is_made_of(base, QuantizerState::Int8(int8q), config),
    {
        Self::from_quantizer(base, QuantizerState::Int8(int8q), config)
    }
}

/// Quantized data: magic word, version, kind of quantizer, number of vectors, bytes of a
/// code, length of the quantizer, quantizer, codes.
pub open spec fn sidecar_bytes(
    q: &QuantizerState,
    num_vectors: usize,
    code_size: usize,
    codes: Seq<u8>,
) -> Seq<u8> {
    bytes::le32(MAGIC) + bytes::le32(VERSION) + seq![q.type_id()] + bytes::le64(num_vectors as u64)
        + bytes::le64(code_size as u64) + bytes::le_bytes(q.record().len(), 8) + q.record() + codes
}

/// Reading quantized data for an index of `n` vectors gives `r`; `state` is what reading
/// the quantizer gives.
pub open spec fn sidecar_read(
    b: Seq<u8>,
    n: usize,
    state: Result<QuantizerState, DiskAnnError>,
    r: Result<(QuantizerState, Vec<u8>, usize), DiskAnnError>,
) -> bool {
    let count = bytes::long_at(b, 9);
    let size = bytes::long_at(b, 17);
    let length = bytes::long_at(b, 25) as int;
    let from = 33 + length;
    if b.len() < 33 {
        r is Err && r->Err_0 == DiskAnnError::IndexError(Fault::QuantizedTooSmall)
    } else if bytes::word_at(b, 0) != MAGIC {
        r is Err && r->Err_0 == DiskAnnError::IndexError(
            Fault::InvalidMagic { expected: MAGIC, found: bytes::word_at(b, 0) },
        )
    } else if bytes::word_at(b, 4) != VERSION {
        r is Err && r->Err_0 == DiskAnnError::IndexError(
            Fault::UnsupportedVersion { version: bytes::word_at(b, 4) },
        )
    } else if count != n {
        r is Err && r->Err_0 == DiskAnnError::IndexError(
            Fault::SidecarCount { sidecar: count, base: n },
        )
    } else if b.len() < from {
        r is Err && r->Err_0 == DiskAnnError::IndexError(Fault::QuantizerTruncated)
    } else {
        &&& QuantizerState::read_as(b.subrange(33, from), state)
        &&& match state {
            Err(e) => r is Err && r->Err_0 == e,
            Ok(q) => if q.type_id() != b[8] {
                r is Err && r->Err_0 == DiskAnnError::IndexError(Fault::QuantizerMismatch)
            } else if size > usize::MAX || b.len() < from + n * size {
                r is Err && r->Err_0 == DiskAnnError::IndexError(Fault::CodesTruncated)
            } else {
                &&& r is Ok
                &&& r->Ok_0.0 == q
                &&& r->Ok_0.1@ == b.subrange(from, from + n * size)
                &&& r->Ok_0.2 == size
            },
        }
    }
}

/// Reads quantized data for an index of `n` vectors.
#[verifier::rlimit(40)]
pub fn read_sidecar(b: &[u8], n: usize) -> (r: Result<(QuantizerState, Vec<u8>, usize), DiskAnnError>)
    ensures
        exists|state: Result<QuantizerState, DiskAnnError>| #[trigger]
            sidecar_read(b@, n, state, r),
{
    let len: usize = b.len();
    let ghost no_state: Result<QuantizerState, DiskAnnError> = Err(DiskAnnError::UnexpectedEof);
    if len < 33 {
        let r: Result<(QuantizerState, Vec<u8>, usize), DiskAnnError> = Err(
            DiskAnnError::IndexError(Fault::QuantizedTooSmall),
        );
        assert(sidecar_read(b@, n, no_state, r));
        return r;
    }
    let magic: u32 = bytes::read_u32(b, 0);
    if magic != MAGIC {
        let r: Result<(QuantizerState, Vec<u8>, usize), DiskAnnError> = Err(
            DiskAnnError::IndexError(Fault::InvalidMagic { expected: MAGIC, found: magic }),
        );
        assert(sidecar_read(b@, n, no_state, r));
        return r;
    }
    let version: u32 = bytes::read_u32(b, 4);
    if version != VERSION {
        let r: Result<(QuantizerState, Vec<u8>, usize), DiskAnnError> = Err(
            DiskAnnError::IndexError(Fault::UnsupportedVersion { version }),
        );
        assert(sidecar_read(b@, n, no_state, r));
        return r;
    }
    let count: u64 = bytes::read_u64(b, 9);
    let size: u64 = bytes::read_u64(b, 17);
    let length: u64 = bytes::read_u64(b, 25);
    assert(count == bytes::long_at(b@, 9));
    assert(size == bytes::long_at(b@, 17));
    assert(length == bytes::long_at(b@, 25));
    if count != n as u64 {
        let r: Result<(QuantizerState, Vec<u8>, usize), DiskAnnError> = Err(
            DiskAnnError::IndexError(Fault::SidecarCount { sidecar: count, base: n }),
        );
        assert(sidecar_read(b@, n, no_state, r));
        return r;
    }
    if length > (len - 33) as u64 {
        let r: Result<(QuantizerState, Vec<u8>, usize), DiskAnnError> = Err(
            DiskAnnError::IndexError(Fault::QuantizerTruncated),
        );
        assert(sidecar_read(b@, n, no_state, r));
        return r;
    }
    let from: usize = 33 + length as usize;
    let state = QuantizerState::from_record(vstd::slice::slice_subrange(b, 33, from));
    let ghost kept = state;
    match state {
        Err(e) => {
            let r: Result<(QuantizerState, Vec<u8>, usize), DiskAnnError> = Err(e);
            assert(sidecar_read(b@, n, kept, r));
            r
        },
        Ok(q) => {
            if q.quantizer_type_id() != b[8] {
                let r: Result<(QuantizerState, Vec<u8>, usize), DiskAnnError> = Err(
                    DiskAnnError::IndexError(Fault::QuantizerMismatch),
                );
                assert(sidecar_read(b@, n, kept, r));
                return r;
            }
            let need: Option<usize> = if size > usize::MAX as u64 {
                None
            } else {
                n.checked_mul(size as usize)
            };
            assert(0 <= n * size) by (nonlinear_arith);
            let short: bool = match need {
                Some(need) => need > len - from,
                None => true,
            };
            if short {
                let r: Result<(QuantizerState, Vec<u8>, usize), DiskAnnError> = Err(
                    DiskAnnError::IndexError(Fault::CodesTruncated),
                );
                assert(sidecar_read(b@, n, kept, r));
                return r;
            }
            let need: usize = n * size as usize;
            let mut codes: Vec<u8> = Vec::new();
            bytes::push_slice(&mut codes, vstd::slice::slice_subrange(b, from, from + need));
            assert(codes@ =~= b@.subrange(from as int, from + n * size));
            let r: Result<(QuantizerState, Vec<u8>, usize), DiskAnnError> = Ok(
                (q, codes, size as usize),
            );
            assert(sidecar_read(b@, n, kept, r));
            r
        },
    }
}

impl<'a, D: Distance> QuantizedDiskANN<'a, D> {
    /// The quantizer and the codes in bytes.
    pub fn quantized_to_bytes(&self) -> (out: Vec<u8>)
        ensures
            out@ == sidecar_bytes(
                &self.quantizer,
                self.base.num_vectors,
                self.code_size,
                self.codes@,
            ),
    {
        let record = self.quantizer.to_record();
        let mut out: Vec<u8> = Vec::new();
        bytes::push_u32(&mut out, MAGIC);
        bytes::push_u32(&mut out, VERSION);
        out.push(self.quantizer.quantizer_type_id());
        bytes::push_u64(&mut out, self.base.num_vectors as u64);
        bytes::push_u64(&mut out, self.code_size as u64);
        bytes::push_u64(&mut out, record.len() as u64);
        bytes::push_slice(&mut out, record.as_slice());
        bytes::push_slice(&mut out, self.codes.as_slice());
        assert(out@ =~= sidecar_bytes(
            &self.quantizer,
            self.base.num_vectors,
            self.code_size,
            self.codes@,
        ));
        out
    }

    /// Putting an index and quantized data together gives `r`.
    pub open spec fn joined(
        base: DiskANN<'a, D>,
        sidecar: Result<(QuantizerState, Vec<u8>, usize), DiskAnnError>,
        config: QuantizedConfig,
        r: Result<Self, DiskAnnError>,
    ) -> bool {
        match sidecar {
            Ok(s) => {
                &&& r is Ok
                &&& r->Ok_0.base == base
                &&& r->Ok_0.quantizer == s.0
                &&& r->Ok_0.codes == s.1
                &&& r->Ok_0.code_size == s.2
                &&& r->Ok_0.rerank_size == config.rerank_size
            },
            Err(e) => r is Err && r->Err_0 == e,
        }
    }

    /// Puts an index together with its quantized data.
    pub fn from_quantized_bytes(base: DiskANN<'a, D>, b: &[u8], config: QuantizedConfig) -> (r: Result<
        Self,
        DiskAnnError,
    >)
        ensures
            exists|
                state: Result<QuantizerState, DiskAnnError>,
                sidecar: Result<(QuantizerState, Vec<u8>, usize), DiskAnnError>,
            | #[trigger]
                sidecar_read(b@, base.num_vectors, state, sidecar) && Self::joined(
                    base,
                    sidecar,
                    config,
                    r,
                ),
    {
        let sidecar = read_sidecar(b, base.num_vectors);
        let ghost kept = sidecar;
        let ghost n = base.num_vectors;
        let ghost kept_base = base;
        let ghost state = choose|state: Result<QuantizerState, DiskAnnError>| #[trigger]
            sidecar_read(b@, n, state, kept);
        match sidecar {
            Ok((quantizer, codes, code_size)) => {
                let r: Result<Self, DiskAnnError> = Ok(
                    QuantizedDiskANN {
                        base,
                        codes,
                        code_size,
                        quantizer,
                        rerank_size: config.rerank_size,
                    },
                );
                assert(sidecar_read(b@, n, state, kept) && Self::joined(
                    kept_base,
                    kept,
                    config,
                    r,
                ));
                r
            },
            Err(e) => {
                let r: Result<Self, DiskAnnError> = Err(e);
                assert(sidecar_read(b@, n, state, kept) && Self::joined(
                    kept_base,
                    kept,
                    config,
                    r,
                ));
                r
            },
        }
    }

    /// Opening an index and its quantized data from their files gives `r`.
    pub open spec fn opened(
        base_file: Seq<u8>,
        sidecar_file: Seq<u8>,
        dist: D,
        config: QuantizedConfig,
        header: Result<Metadata, DiskAnnError>,
        base: Result<DiskANN<'a, D>, DiskAnnError>,
        state: Result<QuantizerState, DiskAnnError>,
        sidecar: Result<(QuantizerState, Vec<u8>, usize), DiskAnnError>,
        r: Result<Self, DiskAnnError>,
    ) -> bool {
        &&& index::opened(base_file, header)
        &&& DiskANN::loaded(header, base_file, dist, base)
        &&& match base {
            Err(e) => r is Err && r->Err_0 == e,
            Ok(index) => {
                &&& sidecar_read(sidecar_file, index.num_vectors, state, sidecar)
                &&& Self::joined(index, sidecar, config, r)
            },
        }
    }

    /// Opens an index that is mapped at `base_file` with its quantized data.
    pub fn open(
        base_file: &'a [u8],
        sidecar_file: &[u8],
        dist: D,
        config: QuantizedConfig,
    ) -> (r: Result<Self, DiskAnnError>)
        ensures
            exists|
                header: Result<Metadata, DiskAnnError>,
                base: Result<DiskANN<'a, D>, DiskAnnError>,
                state: Result<QuantizerState, DiskAnnError>,
                sidecar: Result<(QuantizerState, Vec<u8>, usize), DiskAnnError>,
            | #[trigger]
                Self::opened(
                    base_file@,
                    sidecar_file@,
                    dist,
                    config,
                    header,
                    base,
                    state,
                    sidecar,
                    r,
                ),
    {
        let base = DiskANN::open_index_with(base_file, dist);
        let ghost kept = base;
        let ghost header = choose|header: Result<Metadata, DiskAnnError>| #[trigger]
            index::opened(base_file@, header) && DiskANN::loaded(header, base_file@, dist, kept);
        let ghost file = sidecar_file@;
        match base {
            Err(e) => {
                let r: Result<Self, DiskAnnError> = Err(e);
                proof {
                    let no_state: Result<QuantizerState, DiskAnnError> = Err(e);
                    let none: Result<(QuantizerState, Vec<u8>, usize), DiskAnnError> = Err(e);
                    assert(Self::opened(
                        base_file@,
                        file,
                        dist,
                        config,
                        header,
                        kept,
                        no_state,
                        none,
                        r,
                    ));
                }
                r
            },
            Ok(index) => {
                let ghost n = index.num_vectors;
                let ghost held = index;
                let r = Self::from_quantized_bytes(index, sidecar_file, config);
                proof {
                    let (state, sidecar) = choose|
                        state: Result<QuantizerState, DiskAnnError>,
                        sidecar: Result<(QuantizerState, Vec<u8>, usize), DiskAnnError>,
                    | #[trigger]
                        sidecar_read(file, n, state, sidecar) && Self::joined(
                            held,
                            sidecar,
                            config,
                            r,
                        );
                    assert(Self::opened(
                        base_file@,
                        file,
                        dist,
                        config,
                        header,
                        kept,
                        state,
                        sidecar,
                        r,
                    ));
                }
                r
            },
        }
    }

    /// What `to_bytes` returns: the length of the index, the index, the quantized data.
    pub open spec fn bytes_of(&self) -> Seq<u8> {
        bytes::le_bytes(self.base.storage@.len(), 8) + self.base.storage@ + sidecar_bytes(
            &self.quantizer,
            self.base.num_vectors,
            self.code_size,
            self.codes@,
        )
    }

    /// The index and its quantized data in bytes.
    pub fn to_bytes(&self) -> (out: Vec<u8>)
        ensures
            out@ == self.bytes_of(),
    {
        let base = self.base.to_bytes();
        let sidecar = self.quantized_to_bytes();
        let mut out: Vec<u8> = Vec::new();
        bytes::push_u64(&mut out, base.len() as u64);
        bytes::push_slice(&mut out, base.as_slice());
        bytes::push_slice(&mut out, sidecar.as_slice());
        assert(out@ =~= self.bytes_of());
        out
    }

    /// Loading an index with its quantized data from `b` gives `r`.
    pub open spec fn loaded(
        b: Seq<u8>,
        dist: D,
        config: QuantizedConfig,
        header: Result<Metadata, DiskAnnError>,
        base: Result<DiskANN<'a, D>, DiskAnnError>,
        state: Result<QuantizerState, DiskAnnError>,
        sidecar: Result<(QuantizerState, Vec<u8>, usize), DiskAnnError>,
        r: Result<Self, DiskAnnError>,
    ) -> bool {
        let length = bytes::le_value(b.subrange(0, 8)) as int;
        if b.len() < 8 {
            r is Err && r->Err_0 == DiskAnnError::IndexError(Fault::BufferTooSmall)
        } else if b.len() < 8 + length {
            r is Err && r->Err_0 == DiskAnnError::IndexError(Fault::NoIndexData)
        } else {
            &&& index::parsed(b.subrange(8, 8 + length), header)
            &&& DiskANN::loaded(header, b.subrange(8, 8 + length), dist, base)
            &&& match base {
                Err(e) => r is Err && r->Err_0 == e,
                Ok(index) => {
                    &&& sidecar_read(b.skip(8 + length), index.num_vectors, state, sidecar)
                    &&& Self::joined(index, sidecar, config, r)
                },
            }
        }
    }

    /// Loads an index with its quantized data.
    pub fn from_bytes(b: &[u8], dist: D, config: QuantizedConfig) -> (r: Result<Self, DiskAnnError>)
        ensures
            exists|
                header: Result<Metadata, DiskAnnError>,
                base: Result<DiskANN<'a, D>, DiskAnnError>,
                state: Result<QuantizerState, DiskAnnError>,
                sidecar: Result<(QuantizerState, Vec<u8>, usize), DiskAnnError>,
            | #[trigger]
                Self::loaded(b@, dist, config, header, base, state, sidecar, r),
    {
        let len: usize = b.len();
        let ghost no_base: Result<DiskANN<'a, D>, DiskAnnError> = Err(DiskAnnError::UnexpectedEof);
        let ghost no_header: Result<Metadata, DiskAnnError> = Err(DiskAnnError::UnexpectedEof);
        let ghost no_state: Result<QuantizerState, DiskAnnError> = Err(
            DiskAnnError::UnexpectedEof,
        );
        let ghost no_sidecar: Result<(QuantizerState, Vec<u8>, usize), DiskAnnError> = Err(
            DiskAnnError::UnexpectedEof,
        );
        if len < 8 {
            let r: Result<Self, DiskAnnError> = Err(
                DiskAnnError::IndexError(Fault::BufferTooSmall),
            );
            assert(Self::loaded(b@, dist, config, no_header, no_base, no_state, no_sidecar, r));
            return r;
        }
        let length: u64 = bytes::read_u64(b, 0);
        if length > (len - 8) as u64 {
            let r: Result<Self, DiskAnnError> = Err(DiskAnnError::IndexError(Fault::NoIndexData));
            assert(Self::loaded(b@, dist, config, no_header, no_base, no_state, no_sidecar, r));
            return r;
        }
        let split: usize = 8 + length as usize;
        let mut part: Vec<u8> = Vec::new();
        bytes::push_slice(&mut part, vstd::slice::slice_subrange(b, 8, split));
        assert(part@ =~= b@.subrange(8, split as int));
        let base = DiskANN::from_bytes(part, dist);
        let ghost kept = base;
        let ghost header = choose|header: Result<Metadata, DiskAnnError>| #[trigger]
            index::parsed(b@.subrange(8, split as int), header) && DiskANN::loaded(
                header,
                b@.subrange(8, split as int),
                dist,
                kept,
            );
        match base {
            Err(e) => {
                let r: Result<Self, DiskAnnError> = Err(e);
                assert(Self::loaded(b@, dist, config, header, kept, no_state, no_sidecar, r));
                r
            },
            Ok(index) => {
                let ghost n = index.num_vectors;
                let ghost kept_index = index;
                let rest = vstd::slice::slice_subrange(b, split, len);
                assert(rest@ =~= b@.skip(split as int));
                let r = Self::from_quantized_bytes(index, rest, config);
                proof {
                    let (state, sidecar) = choose|
                        state: Result<QuantizerState, DiskAnnError>,
                        sidecar: Result<(QuantizerState, Vec<u8>, usize), DiskAnnError>,
                    | #[trigger]
                        sidecar_read(rest@, n, state, sidecar) && Self::joined(
                            kept_index,
                            sidecar,
                            config,
                            r,
                        );
                    assert(Self::loaded(b@, dist, config, header, kept, state, sidecar, r));
                }
                r
            },
        }
    }
}

/// The answers of a search by codes are at most `k` vectors of the index, none twice,
/// each with its own distance: that of its vector where candidates are compared again,
/// else that of its code. Where there is a filter, each is one whose labels it accepts.
pub proof fn answers_are_vectors<D: Distance>(
    index: &QuantizedDiskANN<D>,
    query: &[u32],
    filter: Option<(&Vec<Vec<u64>>, &Filter)>,
    k: int,
    beam_width: int,
    config: BeamSearchConfig,
    prep: Prepared,
    t: Trace,
    found: Seq<Candidate>,
    r: Seq<Candidate>,
)
    requires
        k >= 0,
        index.valid(),
        query@.len() == index.base.dim,
        filter matches Some(f) ==> f.0@.len() == index.base.num_vectors,
        index.search_result(query, filter, k, beam_width, config, prep, t, found, r),
    ensures
        r.len() <= k,
        candidate::distinct(r),
        forall|i: int|
            0 <= i < r.len() ==> {
                &&& (#[trigger] r[i]).id < index.base.num_vectors
                &&& r[i].dist == if index.rerank_size > 0 {
                    index.base.dist.eval_spec(query@, index.base.vector(r[i].id as int))
                } else {
                    index.quantizer.distance_of(
                        index.base.dist,
                        query@,
                        index.code(r[i].id as int),
                    )
                }
                &&& filter is Some ==> filter->Some_0.1.accepts(filter->Some_0.0@[r[i].id as int]@)
            },
{
    let space = CodeSpace { index, query, prep: &prep, filter };
    lemma_code_space_closed(&space);
    beam::answers_are_sound(
        &space,
        seq![index.base.medoid_id],
        beam_width,
        search_k(index.rerank_size as int, k),
        config,
        t,
        found,
    );
    if index.rerank_size > 0 {
        let again = rescored(&index.base, query@, found);
        let all = choose|all: Seq<Candidate>| #[trigger]
            candidate::same_items(all, again) && candidate::ranked(all) && r == candidate::first(
                all,
                k,
            );
        assert forall|i: int, j: int| 0 <= i < j < again.len() implies (#[trigger] again[i]).id != (
        #[trigger] again[j]).id by {
            assert(found[i].id != found[j].id);
        }
        assert(again.to_multiset() =~= all.to_multiset());
        candidate::lemma_same_items(again, all);
        assert forall|i: int| 0 <= i < r.len() implies exists|j: int|
            0 <= j < found.len() && again[j] == #[trigger] r[i] by {
            assert(all[i] == r[i]);
            assert(all.contains(r[i]));
            assert(again.contains(r[i]));
        }
        assert forall|i: int| 0 <= i < r.len() implies {
            &&& (#[trigger] r[i]).id < index.base.num_vectors
            &&& r[i].dist == index.base.dist.eval_spec(
                query@,
                index.base.vector(r[i].id as int),
            )
            &&& space.keeps(r[i].id)
        } by {
            let j = choose|j: int| 0 <= j < found.len() && again[j] == r[i];
            assert(found[j].id == r[i].id);
            assert(space.holds(found[j].id));
        }
    } else {
        assert forall|i: int| 0 <= i < r.len() implies space.holds((#[trigger] r[i]).id)
            && r[i].dist == space.dist_of(r[i].id) by {
            assert(found[i] == r[i]);
        }
    }
}

/// Quantized data are read back as they were written.
pub proof fn sidecar_reads_back(
    q: &QuantizerState,
    n: usize,
    code_size: usize,
    codes: Seq<u8>,
    state: Result<QuantizerState, DiskAnnError>,
    r: Result<(QuantizerState, Vec<u8>, usize), DiskAnnError>,
)
    requires
        codes.len() == n * code_size,
        sidecar_bytes(q, n, code_size, codes).len() <= u64::MAX,
        sidecar_read(sidecar_bytes(q, n, code_size, codes), n, state, r),
    ensures
        r is Ok,
        q.same(&r->Ok_0.0),
        r->Ok_0.1@ == codes,
        r->Ok_0.2 == code_size,
{
    let b = sidecar_bytes(q, n, code_size, codes);
    let record = q.record();
    let from = 33 + record.len() as int;
    lemma_sidecar_layout(q, n, code_size, codes);
    assert(record + Seq::<u8>::empty() =~= record);
    quantizer::record_reads_back(*q, Seq::empty(), state);
    assert(b.subrange(from, from + n * code_size) =~= codes);
}

/// Where the parts of quantized data stand.
proof fn lemma_sidecar_layout(q: &QuantizerState, n: usize, code_size: usize, codes: Seq<u8>)
    requires
        sidecar_bytes(q, n, code_size, codes).len() <= u64::MAX,
    ensures
        ({
            let b = sidecar_bytes(q, n, code_size, codes);
            let from = 33 + q.record().len() as int;
            &&& b.len() == from + codes.len()
            &&& b.subrange(0, 4) == bytes::le32(MAGIC)
            &&& b.subrange(4, 8) == bytes::le32(VERSION)
            &&& b[8] == q.type_id()
            &&& b.subrange(9, 17) == bytes::le64(n as u64)
            &&& b.subrange(17, 25) == bytes::le64(code_size as u64)
            &&& b.subrange(25, 33) == bytes::le_bytes(q.record().len(), 8)
            &&& b.subrange(33, from) == q.record()
            &&& bytes::word_at(b, 0) == MAGIC
            &&& bytes::word_at(b, 4) == VERSION
            &&& bytes::long_at(b, 9) == n
            &&& bytes::long_at(b, 17) == code_size
            &&& bytes::long_at(b, 25) == q.record().len()
        }),
{
    let b = sidecar_bytes(q, n, code_size, codes);
    let record = q.record();
    bytes::lemma_le32(MAGIC);
    bytes::lemma_le32(VERSION);
    bytes::lemma_le64(n as u64);
    bytes::lemma_le64(code_size as u64);
    bytes::lemma_pow256();
    bytes::lemma_le_bytes_len(record.len(), 8);
    assert(record.len() <= b.len());
    bytes::lemma_le_round_trip(record.len(), 8);
    assert(b.subrange(0, 4) =~= bytes::le32(MAGIC));
    assert(b.subrange(4, 8) =~= bytes::le32(VERSION));
    assert(b[8] == q.type_id());
    assert(b.subrange(9, 17) =~= bytes::le64(n as u64));
    assert(b.subrange(17, 25) =~= bytes::le64(code_size as u64));
    assert(b.subrange(25, 33) =~= bytes::le_bytes(record.len(), 8));
    let from = 33 + record.len() as int;
    assert(b.subrange(33, from) =~= record);
}

/// Quantized data that lack bytes at their end are refused, wherever they were cut.
pub proof fn cut_sidecar_is_refused(
    q: &QuantizerState,
    n: usize,
    code_size: usize,
    codes: Seq<u8>,
    m: int,
    state: Result<QuantizerState, DiskAnnError>,
    r: Result<(QuantizerState, Vec<u8>, usize), DiskAnnError>,
)
    requires
        codes.len() == n * code_size,
        sidecar_bytes(q, n, code_size, codes).len() <= u64::MAX,
        0 <= m < sidecar_bytes(q, n, code_size, codes).len(),
        sidecar_read(sidecar_bytes(q, n, code_size, codes).take(m), n, state, r),
    ensures
        r is Err,
{
    let b = sidecar_bytes(q, n, code_size, codes);
    let t = b.take(m);
    let from = 33 + q.record().len() as int;
    lemma_sidecar_layout(q, n, code_size, codes);
    if m >= 33 {
        assert(t.subrange(0, 4) =~= b.subrange(0, 4));
        assert(t.subrange(4, 8) =~= b.subrange(4, 8));
        assert(t.subrange(9, 17) =~= b.subrange(9, 17));
        assert(t.subrange(17, 25) =~= b.subrange(17, 25));
        assert(t.subrange(25, 33) =~= b.subrange(25, 33));
        if m >= from {
            assert(t.subrange(33, from) =~= b.subrange(33, from));
        }
    }
}

/// A byte of the header was replaced by another: what it spells is another number.
proof fn lemma_changed_number(b: Seq<u8>, at: int, x: u8, from: int, to: int)
    requires
        0 <= from <= at < to <= b.len(),
        x != b[at],
    ensures
        bytes::le_value(b.update(at, x).subrange(from, to)) != bytes::le_value(
            b.subrange(from, to),
        ),
{
    let s = b.subrange(from, to);
    let t = b.update(at, x).subrange(from, to);
    assert(s[at - from] == b[at] && t[at - from] == x);
    bytes::lemma_le_value_bytes(s);
    bytes::lemma_le_value_bytes(t);
}

/// Quantized data whose magic word, version, kind of quantizer or number of vectors was
/// changed are refused, each with its own fault.
pub proof fn changed_sidecar_is_refused(
    q: &QuantizerState,
    n: usize,
    code_size: usize,
    codes: Seq<u8>,
    at: int,
    x: u8,
    state: Result<QuantizerState, DiskAnnError>,
    r: Result<(QuantizerState, Vec<u8>, usize), DiskAnnError>,
)
    requires
        codes.len() == n * code_size,
        sidecar_bytes(q, n, code_size, codes).len() <= u64::MAX,
        0 <= at < 17,
        x != sidecar_bytes(q, n, code_size, codes)[at],
        sidecar_read(sidecar_bytes(q, n, code_size, codes).update(at, x), n, state, r),
    ensures
        r is Err,
        r->Err_0 is IndexError,
        at < 4 ==> r->Err_0->IndexError_0 is InvalidMagic,
        4 <= at < 8 ==> r->Err_0->IndexError_0 is UnsupportedVersion,
        at == 8 ==> r->Err_0->IndexError_0 is QuantizerMismatch,
        9 <= at ==> r->Err_0->IndexError_0 is SidecarCount,
{
    let b = sidecar_bytes(q, n, code_size, codes);
    let t = b.update(at, x);
    let from = 33 + q.record().len() as int;
    lemma_sidecar_layout(q, n, code_size, codes);
    if at < 4 {
        lemma_changed_number(b, at, x, 0, 4);
        bytes::lemma_pow256();
        bytes::lemma_le_value_bytes(t.subrange(0, 4));
        bytes::lemma_le32(MAGIC);
    } else {
        assert(t.subrange(0, 4) =~= b.subrange(0, 4));
        if at < 8 {
            lemma_changed_number(b, at, x, 4, 8);
            bytes::lemma_pow256();
            bytes::lemma_le_value_bytes(t.subrange(4, 8));
            bytes::lemma_le32(VERSION);
        } else {
            assert(t.subrange(4, 8) =~= b.subrange(4, 8));
            if at == 8 {
                assert(t.subrange(9, 17) =~= b.subrange(9, 17));
                assert(t.subrange(25, 33) =~= b.subrange(25, 33));
                assert(t.subrange(33, from) =~= b.subrange(33, from));
                let none = Seq::<u8>::empty();
                assert(q.record() + none =~= q.record());
                quantizer::record_reads_back(*q, none, state);
            } else {
                lemma_changed_number(b, at, x, 9, 17);
                bytes::lemma_pow256();
                bytes::lemma_le_value_bytes(t.subrange(9, 17));
                bytes::lemma_le64(n as u64);
            }
        }
    }
}

impl<'a, D: Distance> QuantizedDiskANN<'a, D> {
    /// The two have the same index, quantizer and codes, and use them alike.
    pub open spec fn is_same<'c>(&self, other: &QuantizedDiskANN<'c, D>) -> bool {
        &&& self.base.is_same(&other.base)
        &&& self.quantizer.same(&other.quantizer)
        &&& self.codes@ == other.codes@
        &&& self.code_size == other.code_size
        &&& self.rerank_size == other.rerank_size
    }
}

/// Loading the bytes of an index with its quantized data gives the index back.
pub proof fn quantized_index_reads_back<D: Distance>(
    index: &QuantizedDiskANN<D>,
    config: QuantizedConfig,
    header: Result<Metadata, DiskAnnError>,
    base: Result<DiskANN<D>, DiskAnnError>,
    state: Result<QuantizerState, DiskAnnError>,
    sidecar: Result<(QuantizerState, Vec<u8>, usize), DiskAnnError>,
    r: Result<QuantizedDiskANN<D>, DiskAnnError>,
)
    requires
        index.base.is_headed(),
        index.codes@.len() == index.base.num_vectors * index.code_size,
        index.bytes_of().len() <= u64::MAX,
        config.rerank_size == index.rerank_size,
        QuantizedDiskANN::loaded(
            index.bytes_of(),
            index.base.dist,
            config,
            header,
            base,
            state,
            sidecar,
            r,
        ),
    ensures
        r is Ok,
        index.is_same(&r->Ok_0),
{
    let b = index.bytes_of();
    let held = index.base.storage@;
    let rest = sidecar_bytes(
        &index.quantizer,
        index.base.num_vectors,
        index.code_size,
        index.codes@,
    );
    bytes::lemma_pow256();
    bytes::lemma_le_round_trip(held.len(), 8);
    assert(b.subrange(0, 8) =~= bytes::le_bytes(held.len(), 8));
    assert(b.subrange(8, 8 + held.len() as int) =~= held);
    assert(b.skip(8 + held.len() as int) =~= rest);
    index::headed_index_loads(&index.base, header, base);
    sidecar_reads_back(
        &index.quantizer,
        index.base.num_vectors,
        index.code_size,
        index.codes@,
        state,
        sidecar,
    );
}

proof fn lemma_same_quantized_valid<D: Distance>(a: &QuantizedDiskANN<D>, b: &QuantizedDiskANN<D>)
    requires
        a.valid(),
        a.is_same(b),
    ensures
        b.valid(),
{
    index::lemma_same_valid(&a.base, &b.base);
    quantizer::same_quantizers_code_alike(a.quantizer, b.quantizer, a.base.dist, Seq::empty());
    assert forall|i: int| 0 <= i < b.base.num_vectors implies b.quantizer.is_code(
        #[trigger] quantizer::code_at(b.codes@, i, b.quantizer.code_len()),
    ) by {
        let code = quantizer::code_at(a.codes@, i, a.quantizer.code_len());
        assert(a.quantizer.is_code(code) == b.quantizer.is_code(code));
    }
}

/// Two indexes with the same content are searched by codes alike.
pub proof fn same_indexes_answer_alike<D: Distance>(
    a: &QuantizedDiskANN<D>,
    b: &QuantizedDiskANN<D>,
    query: &[u32],
    filter: Option<(&Vec<Vec<u64>>, &Filter)>,
    k: int,
    beam_width: int,
    config: BeamSearchConfig,
    prep: Prepared,
    t: Trace,
    found: Seq<Candidate>,
    r: Seq<Candidate>,
)
    requires
        a.valid(),
        a.is_same(b),
        query@.len() == a.base.dim,
        filter matches Some(f) ==> f.0@.len() == a.base.num_vectors,
    ensures
        b.valid(),
        a.search_result(query, filter, k, beam_width, config, prep, t, found, r)
            == b.search_result(query, filter, k, beam_width, config, prep, t, found, r),
{
    lemma_same_quantized_valid(a, b);
    quantizer::same_quantizers_code_alike(a.quantizer, b.quantizer, a.base.dist, query@);
    assert(a.quantizer.is_prepared(a.base.dist, query@, &prep) == b.quantizer.is_prepared(
        b.base.dist,
        query@,
        &prep,
    ));
    if a.quantizer.is_prepared(a.base.dist, query@, &prep) {
        let x = CodeSpace { index: a, query, prep: &prep, filter };
        lemma_same_code_spaces(a, b, query, query, &prep, &prep, filter);
        lemma_code_space_closed(&x);
        beam::same_spaces_are_searched_alike(
            &x,
            &CodeSpace { index: b, query, prep: &prep, filter },
            seq![a.base.medoid_id],
            beam_width,
            search_k(a.rerank_size as int, k),
            config,
            t,
            found,
        );
        lemma_same_rescored(&a.base, &b.base, query@, found);
    }
}

proof fn lemma_same_code_spaces<D: Distance>(
    a: &QuantizedDiskANN<D>,
    b: &QuantizedDiskANN<D>,
    q1: &[u32],
    q2: &[u32],
    prep1: &Prepared,
    prep2: &Prepared,
    filter: Option<(&Vec<Vec<u64>>, &Filter)>,
)
    requires
        a.valid(),
        a.is_same(b),
        q1@ == q2@,
        a.quantizer.is_prepared(a.base.dist, q1@, prep1),
        b.quantizer.is_prepared(b.base.dist, q2@, prep2),
    ensures
        b.valid(),
        beam::same_space(
            &CodeSpace { index: a, query: q1, prep: prep1, filter },
            &CodeSpace { index: b, query: q2, prep: prep2, filter },
        ),
{
    lemma_same_quantized_valid(a, b);
    index::lemma_same_valid(&a.base, &b.base);
    quantizer::same_quantizers_code_alike(a.quantizer, b.quantizer, a.base.dist, q1@);
    let x = CodeSpace { index: a, query: q1, prep: prep1, filter };
    let y = CodeSpace { index: b, query: q2, prep: prep2, filter };
    assert forall|id: u32| x.holds(id) implies #[trigger] x.dist_of(id) == y.dist_of(id) by {
        quantizer::same_quantizers_measure_alike(
            a.quantizer,
            b.quantizer,
            a.base.dist,
            q1@,
            a.code(id as int),
        );
    }
    assert forall|id: u32| x.holds(id) implies #[trigger] x.links_of(id) == y.links_of(id) by {
        assert(a.base.links(id as int) == b.base.links(id as int));
    }
    assert(beam::same_space(&x, &y));
}

proof fn lemma_same_rescored<D: Distance>(
    a: &DiskANN<D>,
    b: &DiskANN<D>,
    query: Seq<u32>,
    found: Seq<Candidate>,
)
    requires
        a.is_same(b),
    ensures
        rescored(a, query, found) == rescored(b, query, found),
{
    index::lemma_same_valid(a, b);
    assert(rescored(a, query, found) =~= rescored(b, query, found)) by {
        assert forall|i: int| 0 <= i < found.len() implies #[trigger] rescored(a, query, found)[i]
            == rescored(b, query, found)[i] by {
            assert(a.vector(found[i].id as int) == b.vector(found[i].id as int));
        }
    }
}

/// Two searches by codes for one query, of one index or of two with the same content,
/// return the same list.
pub proof fn same_indexes_return_one_list<D: Distance>(
    a: &QuantizedDiskANN<D>,
    b: &QuantizedDiskANN<D>,
    q1: &[u32],
    q2: &[u32],
    filter: Option<(&Vec<Vec<u64>>, &Filter)>,
    k: int,
    beam_width: int,
    config: BeamSearchConfig,
    prep1: Prepared,
    t1: Trace,
    found1: Seq<Candidate>,
    r1: Seq<Candidate>,
    prep2: Prepared,
    t2: Trace,
    found2: Seq<Candidate>,
    r2: Seq<Candidate>,
)
    requires
        a.valid(),
        a.is_same(b),
        q1@.len() == a.base.dim,
        q1@ == q2@,
        filter matches Some(f) ==> f.0@.len() == a.base.num_vectors,
        a.search_result(q1, filter, k, beam_width, config, prep1, t1, found1, r1),
        b.search_result(q2, filter, k, beam_width, config, prep2, t2, found2, r2),
    ensures
        r1 == r2,
{
    let x = CodeSpace { index: a, query: q1, prep: &prep1, filter };
    lemma_same_code_spaces(a, b, q1, q2, &prep1, &prep2, filter);
    lemma_code_space_closed(&x);
    beam::searches_agree(
        &x,
        &CodeSpace { index: b, query: q2, prep: &prep2, filter },
        seq![a.base.medoid_id],
        beam_width,
        search_k(a.rerank_size as int, k),
        config,
        t1,
        found1,
        t2,
        found2,
    );
    lemma_same_rescored(&a.base, &b.base, q1@, found1);
}

/// A filtered search by codes without a filter returns the list that a search returns.
pub proof fn unfiltered_search_is_plain<D: Distance>(
    index: &QuantizedDiskANN<D>,
    query: &[u32],
    labels: &Vec<Vec<u64>>,
    filter: &Filter,
    k: int,
    beam_width: int,
    prep1: Prepared,
    t1: Trace,
    found1: Seq<Candidate>,
    plain: Seq<Candidate>,
    prep2: Prepared,
    t2: Trace,
    found2: Seq<Candidate>,
    r: Seq<Candidate>,
)
    requires
        index.valid(),
        query@.len() == index.base.dim,
        filter is NoFilter,
        index.search_result(
            query,
            None,
            k,
            beam_width,
            beam::unbounded(),
            prep1,
            t1,
            found1,
            plain,
        ),
        index.filtered_result(query, labels, filter, k, beam_width, prep2, t2, found2, r),
    ensures
        r == plain,
{
    same_indexes_return_one_list(
        index,
        index,
        query,
        query,
        None,
        k,
        beam_width,
        beam::unbounded(),
        prep1,
        t1,
        found1,
        plain,
        prep2,
        t2,
        found2,
        r,
    );
}

/// Quantized data put together with the index that they were made for give the index by
/// codes back.
pub proof fn sidecar_restores_index<D: Distance>(
    x: &QuantizedDiskANN<D>,
    base: DiskANN<D>,
    config: QuantizedConfig,
    state: Result<QuantizerState, DiskAnnError>,
    sidecar: Result<(QuantizerState, Vec<u8>, usize), DiskAnnError>,
    r: Result<QuantizedDiskANN<D>, DiskAnnError>,
)
    requires
        x.valid(),
        x.base.is_same(&base),
        config.rerank_size == x.rerank_size,
        sidecar_bytes(&x.quantizer, x.base.num_vectors, x.code_size, x.codes@).len() <= u64::MAX,
        sidecar_read(
            sidecar_bytes(&x.quantizer, x.base.num_vectors, x.code_size, x.codes@),
            base.num_vectors,
            state,
            sidecar,
        ),
        QuantizedDiskANN::joined(base, sidecar, config, r),
    ensures
        r is Ok,
        x.is_same(&r->Ok_0),
{
    sidecar_reads_back(
        &x.quantizer,
        x.base.num_vectors,
        x.code_size,
        x.codes@,
        state,
        sidecar,
    );
}

/// Quantized data of another number of vectors than the index has are refused.
pub proof fn sidecar_of_another_count_is_refused(
    q: &QuantizerState,
    n: usize,
    code_size: usize,
    codes: Seq<u8>,
    other: usize,
    state: Result<QuantizerState, DiskAnnError>,
    r: Result<(QuantizerState, Vec<u8>, usize), DiskAnnError>,
)
    requires
        sidecar_bytes(q, n, code_size, codes).len() <= u64::MAX,
        other != n,
        sidecar_read(sidecar_bytes(q, n, code_size, codes), other, state, r),
    ensures
        r is Err,
        r->Err_0 == DiskAnnError::IndexError(
            Fault::SidecarCount { sidecar: n as u64, base: other },
        ),
{
    lemma_sidecar_layout(q, n, code_size, codes);
}

/// Vectors that an index was built over have one number of components.
pub proof fn lemma_built_shape<D: Distance>(
    vectors: &Vec<Vec<u32>>,
    params: DiskAnnParams,
    dist: D,
    base: Result<DiskANN<D>, DiskAnnError>,
)
    requires
        base is Ok,
        DiskANN::built(
            vectors,
            params.max_degree as int,
            params.build_beam_width as int,
            params.alpha,
            dist,
            base,
        ),
    ensures
        vectors@.len() > 0,
        kmeans::level(vectors@, vectors@[0]@.len() as int),
        base->Ok_0.dim == vectors@[0]@.len(),
        base->Ok_0.valid(),
        index::first_mismatch(vectors@, vectors@[0]@.len() as int, 0) is None,
{
    assert forall|i: int| 0 <= i < vectors@.len() implies (#[trigger] vectors@[i])@.len()
        == vectors@[0]@.len() by {
        lemma_no_mismatch(vectors@, vectors@[0]@.len() as int, 0, i);
    }
}

proof fn lemma_no_mismatch(vectors: Seq<Vec<u32>>, dim: int, from: int, i: int)
    requires
        0 <= from <= i < vectors.len(),
        index::first_mismatch(vectors, dim, from) is None,
    ensures
        vectors[i]@.len() == dim,
    decreases i - from,
{
    if from < i {
        lemma_no_mismatch(vectors, dim, from + 1, i);
    }
}

/// A product quantizer as training may return it.
pub open spec fn pq_trained<D: Distance>(
    dist: D,
    vectors: Seq<Vec<u32>>,
    config: PQConfig,
    r: Result<QuantizerState, DiskAnnError>,
) -> bool {
    match pq::training_fault(vectors, config) {
        Some(fault) => r is Err && r->Err_0 == DiskAnnError::IndexError(fault),
        None => r is Ok && r->Ok_0 is PQ && exists|sample: Seq<usize>| #[trigger]
            pq::is_trained(&r->Ok_0->PQ_0, dist, vectors, config, sample),
    }
}

/// A bit quantizer as training returns it.
pub open spec fn rabitq_trained<D: Distance>(
    dist: D,
    vectors: Seq<Vec<u32>>,
    r: Result<QuantizerState, DiskAnnError>,
) -> bool {
    &&& r is Ok
    &&& r->Ok_0 matches QuantizerState::RaBitQ(q)
    &&& q.dim == vectors[0]@.len()
    &&& q.padded == rabitq::padded_for(vectors[0]@.len() as int)
    &&& q.centroid@ == crate::metric::mean_of(dist, crate::metric::rows(vectors))
    &&& q.signs@ == RaBitQ::signs_for(dist, q.padded)
}

/// A byte quantizer as training returns it.
pub open spec fn int8_trained<D: Distance>(
    dist: D,
    vectors: Seq<Vec<u32>>,
    r: Result<QuantizerState, DiskAnnError>,
) -> bool {
    &&& r is Ok
    &&& r->Ok_0 matches QuantizerState::Int8(q)
    &&& q.is_trained(dist, vectors)
}

impl<'a, D: Distance> QuantizedDiskANN<'a, D> {
    /// Building an index, training a quantizer and coding the vectors gives `r`. The
    /// first step that fails is reported.
    pub open spec fn built(
        vectors: &Vec<Vec<u32>>,
        dist: D,
        params: DiskAnnParams,
        config: QuantizedConfig,
        base: Result<DiskANN<'a, D>, DiskAnnError>,
        trained: Result<QuantizerState, DiskAnnError>,
        r: Result<Self, DiskAnnError>,
    ) -> bool {
        &&& DiskANN::built(
            vectors,
            params.max_degree as int,
            params.build_beam_width as int,
            params.alpha,
            dist,
            base,
        )
        &&& match (base, trained) {
            (Err(e), _) => r is Err && r->Err_0 == e,
            (Ok(_), Err(e)) => r is Err && r->Err_0 == e,
            (Ok(index), Ok(q)) => r is Ok && r->Ok_0.is_made_of(index, q, config),
        }
    }

    /// Builds an index with a product quantizer.
    pub fn build_pq(
        vectors: &Vec<Vec<u32>>,
        dist: D,
        ann_params: DiskAnnParams,
        pq_config: PQConfig,
        config: QuantizedConfig,
    ) -> (r: Result<Self, DiskAnnError>)
        requires
            index::can_be_laid_out(vectors@, ann_params.max_degree as int),
            pq::can_count(vectors@, pq_config),
        ensures
            exists|
                base: Result<DiskANN<'a, D>, DiskAnnError>,
                trained: Result<QuantizerState, DiskAnnError>,
            | #[trigger]
                Self::built(vectors, dist, ann_params, config, base, trained, r) && (base is Ok
                    ==> pq_trained(dist, vectors@, pq_config, trained)),
    {
        let base = DiskANN::build_index_with_params(vectors, dist, ann_params);
        let ghost kept = base;
        let ghost untrained: Result<QuantizerState, DiskAnnError> = Err(
            DiskAnnError::UnexpectedEof,
        );
        let index = match base {
            Ok(index) => index,
            Err(e) => {
                let r: Result<Self, DiskAnnError> = Err(e);
                assert(Self::built(vectors, dist, ann_params, config, kept, untrained, r));
                return r;
            },
        };
        proof {
            lemma_built_shape(vectors, ann_params, dist, kept);
        }
        match ProductQuantizer::train(dist, vectors, pq_config) {
            Ok(q) => {
                let state = QuantizerState::PQ(q);
                let ghost trained: Result<QuantizerState, DiskAnnError> = Ok(state);
                let r: Result<Self, DiskAnnError> = Ok(Self::from_quantizer(index, state, config));
                assert(Self::built(vectors, dist, ann_params, config, kept, trained, r));
                r
            },
            Err(e) => {
                let ghost trained: Result<QuantizerState, DiskAnnError> = Err(e);
                let r: Result<Self, DiskAnnError> = Err(e);
                assert(Self::built(vectors, dist, ann_params, config, kept, trained, r));
                r
            },
        }
    }

    /// Builds an index with half-precision codes.
    pub fn build_f16(
        vectors: &Vec<Vec<u32>>,
        dist: D,
        ann_params: DiskAnnParams,
        config: QuantizedConfig,
    ) -> (r: Result<Self, DiskAnnError>)
        requires
            index::can_be_laid_out(vectors@, ann_params.max_degree as int),
            vectors@.len() > 0 ==> 2 * vectors@[0]@.len() <= usize::MAX,
        ensures
            exists|
                base: Result<DiskANN<'a, D>, DiskAnnError>,
                trained: Result<QuantizerState, DiskAnnError>,
            | #[trigger]
                Self::built(vectors, dist, ann_params, config, base, trained, r) && (base is Ok
                    ==> trained is Ok && trained->Ok_0 == QuantizerState::F16(
                    F16Quantizer { dim: vectors@[0]@.len() as usize },
                )),
    {
        let base = DiskANN::build_index_with_params(vectors, dist, ann_params);
        let ghost kept = base;
        let ghost untrained: Result<QuantizerState, DiskAnnError> = Err(
            DiskAnnError::UnexpectedEof,
        );
        let index = match base {
            Ok(index) => index,
            Err(e) => {
                let r: Result<Self, DiskAnnError> = Err(e);
                assert(Self::built(vectors, dist, ann_params, config, kept, untrained, r));
                return r;
            },
        };
        proof {
            lemma_built_shape(vectors, ann_params, dist, kept);
        }
        let state = QuantizerState::F16(F16Quantizer::new(index.dim));
        let ghost trained: Result<QuantizerState, DiskAnnError> = Ok(state);
        let r: Result<Self, DiskAnnError> = Ok(Self::from_quantizer(index, state, config));
        assert(Self::built(vectors, dist, ann_params, config, kept, trained, r));
        r
    }

    /// Builds an index with one bit per dimension.
    pub fn build_rabitq(
        vectors: &Vec<Vec<u32>>,
        dist: D,
        ann_params: DiskAnnParams,
        config: QuantizedConfig,
    ) -> (r: Result<Self, DiskAnnError>)
        requires
            index::can_be_laid_out(vectors@, ann_params.max_degree as int),
            vectors@.len() > 0 ==> vectors@[0]@.len() <= rabitq::MAX_PADDED,
        ensures
            exists|
                base: Result<DiskANN<'a, D>, DiskAnnError>,
                trained: Result<QuantizerState, DiskAnnError>,
            | #[trigger]
                Self::built(vectors, dist, ann_params, config, base, trained, r) && (base is Ok
                    ==> rabitq_trained(dist, vectors@, trained)),
    {
        let base = DiskANN::build_index_with_params(vectors, dist, ann_params);
        let ghost kept = base;
        let ghost untrained: Result<QuantizerState, DiskAnnError> = Err(
            DiskAnnError::UnexpectedEof,
        );
        let index = match base {
            Ok(index) => index,
            Err(e) => {
                let r: Result<Self, DiskAnnError> = Err(e);
                assert(Self::built(vectors, dist, ann_params, config, kept, untrained, r));
                return r;
            },
        };
        proof {
            lemma_built_shape(vectors, ann_params, dist, kept);
        }
        match RaBitQ::train(dist, vectors) {
            Ok(q) => {
                let state = QuantizerState::RaBitQ(q);
                let ghost trained: Result<QuantizerState, DiskAnnError> = Ok(state);
                let r: Result<Self, DiskAnnError> = Ok(Self::from_quantizer(index, state, config));
                assert(Self::built(vectors, dist, ann_params, config, kept, trained, r));
                r
            },
            Err(e) => {
                let ghost trained: Result<QuantizerState, DiskAnnError> = Err(e);
                let r: Result<Self, DiskAnnError> = Err(e);
                assert(Self::built(vectors, dist, ann_params, config, kept, trained, r));
                r
            },
        }
    }

    /// Builds an index with one byte per component.
    pub fn build_int8(
        vectors: &Vec<Vec<u32>>,
        dist: D,
        ann_params: DiskAnnParams,
        config: QuantizedConfig,
    ) -> (r: Result<Self, DiskAnnError>)
        requires
            index::can_be_laid_out(vectors@, ann_params.max_degree as int),
            vectors@.len() > 0 ==> vectors@[0]@.len() <= sq::MAX_BYTE_CODE,
        ensures
            exists|
                base: Result<DiskANN<'a, D>, DiskAnnError>,
                trained: Result<QuantizerState, DiskAnnError>,
            | #[trigger]
                Self::built(vectors, dist, ann_params, config, base, trained, r) && (base is Ok
                    ==> int8_trained(dist, vectors@, trained)),
    {
        let base = DiskANN::build_index_with_params(vectors, dist, ann_params);
        let ghost kept = base;
        let ghost untrained: Result<QuantizerState, DiskAnnError> = Err(
            DiskAnnError::UnexpectedEof,
        );
        let index = match base {
            Ok(index) => index,
            Err(e) => {
                let r: Result<Self, DiskAnnError> = Err(e);
                assert(Self::built(vectors, dist, ann_params, config, kept, untrained, r));
                return r;
            },
        };
        proof {
            lemma_built_shape(vectors, ann_params, dist, kept);
        }
        match Int8Quantizer::train(dist, vectors) {
            Ok(q) => {
                let state = QuantizerState::Int8(q);
                let ghost trained: Result<QuantizerState, DiskAnnError> = Ok(state);
                let r: Result<Self, DiskAnnError> = Ok(Self::from_quantizer(index, state, config));
                assert(Self::built(vectors, dist, ann_params, config, kept, trained, r));
                r
            },
            Err(e) => {
                let ghost trained: Result<QuantizerState, DiskAnnError> = Err(e);
                let r: Result<Self, DiskAnnError> = Err(e);
                assert(Self::built(vectors, dist, ann_params, config, kept, trained, r));
                r
            },
        }
    }
}

} // verus!
