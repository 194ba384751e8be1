//! What quantizers have in common.
use crate::bytes;
use crate::error::DiskAnnError;
use crate::metric::Distance;
use crate::pq::ProductQuantizer;
use crate::quantizer;
use crate::quantizer::QuantizerState;
use crate::rabitq::RaBitQ;
use crate::sq::F16Quantizer;
use crate::sq::Int8Quantizer;
use crate::wire;
use vstd::prelude::*;

verus! {

/// `a` bytes over `b` bytes.
pub open spec fn ratio_of<D: Distance>(dist: D, a: int, b: int) -> u32 {
    dist.quotient_spec(dist.count_spec(a as usize), dist.count_spec(b as usize))
}

/// Turns vectors into codes and back.
pub trait VectorQuantizer {
    /// The quantizer as one of its kinds.
    spec fn state(&self) -> QuantizerState;

    /// The bytes of a vector of `dim` components, and of its code.
    spec fn sizes(&self, dim: usize) -> (int, int);

    /// The code of a vector.
    fn encode<D: Distance>(&self, dist: D, vector: &[u32]) -> (r: Vec<u8>)
        requires
            self.state().wf(),
            vector@.len() == self.state().dim_of(),
        ensures
            r@ == self.state().code_of(dist, vector@),
            self.state().is_code(r@),
    ;

    /// The vector that a code stands for.
    fn decode<D: Distance>(&self, dist: D, codes: &[u8]) -> (r: Vec<u32>)
        requires
            self.state().wf(),
            self.state().is_code(codes@),
        ensures
            r@ == self.state().decoded(dist, codes@),
            r@.len() == self.state().dim_of(),
    ;

    /// The squared distance between a query and a code.
    fn asymmetric_distance<D: Distance>(&self, dist: D, query: &[u32], codes: &[u8]) -> (d: u32)
        requires
            self.state().wf(),
            query@.len() == self.state().dim_of(),
            self.state().is_code(codes@),
        ensures
            d == self.state().square_of(dist, query@, codes@),
    ;

    /// The bytes of a vector over the bytes of its code.
    fn compression_ratio<D: Distance>(&self, dist: D, dim: usize) -> (r: u32)
        requires
            self.state().wf(),
            self.sizes(dim).0 <= usize::MAX,
            self.sizes(dim).1 <= usize::MAX,
        ensures
            r == ratio_of(dist, self.sizes(dim).0, self.sizes(dim).1),
    ;
}

impl VectorQuantizer for ProductQuantizer {
    open spec fn state(&self) -> QuantizerState {
        QuantizerState::PQ(*self)
    }

    /// The dimension is that of the training vectors, whatever `dim` says.
    open spec fn sizes(&self, dim: usize) -> (int, int) {
        (self.dim * 4, self.num_subspaces as int)
    }

    fn encode<D: Distance>(&self, dist: D, vector: &[u32]) -> (r: Vec<u8>) {
        ProductQuantizer::encode(self, dist, vector)
    }

    fn decode<D: Distance>(&self, dist: D, codes: &[u8]) -> (r: Vec<u32>) {
        ProductQuantizer::decode(self, codes)
    }

    fn asymmetric_distance<D: Distance>(&self, dist: D, query: &[u32], codes: &[u8]) -> (d: u32) {
        ProductQuantizer::asymmetric_distance(self, dist, query, codes)
    }

    fn compression_ratio<D: Distance>(&self, dist: D, dim: usize) -> (r: u32) {
        dist.quotient(dist.count(self.dim * 4), dist.count(self.num_subspaces))
    }
}

impl VectorQuantizer for F16Quantizer {
    open spec fn state(&self) -> QuantizerState {
        QuantizerState::F16(*self)
    }

    open spec fn sizes(&self, dim: usize) -> (int, int) {
        (dim * 4, dim * 2)
    }

    fn encode<D: Distance>(&self, dist: D, vector: &[u32]) -> (r: Vec<u8>) {
        F16Quantizer::encode(self, dist, vector)
    }

    fn decode<D: Distance>(&self, dist: D, codes: &[u8]) -> (r: Vec<u32>) {
        F16Quantizer::decode(self, dist, codes)
    }

    fn asymmetric_distance<D: Distance>(&self, dist: D, query: &[u32], codes: &[u8]) -> (d: u32) {
        F16Quantizer::asymmetric_distance(self, dist, query, codes)
    }

    fn compression_ratio<D: Distance>(&self, dist: D, dim: usize) -> (r: u32) {
        dist.quotient(dist.count(dim * 4), dist.count(dim * 2))
    }
}

impl VectorQuantizer for Int8Quantizer {
    open spec fn state(&self) -> QuantizerState {
        QuantizerState::Int8(*self)
    }

    open spec fn sizes(&self, dim: usize) -> (int, int) {
        (dim * 4, dim as int)
    }

    fn encode<D: Distance>(&self, dist: D, vector: &[u32]) -> (r: Vec<u8>) {
        Int8Quantizer::encode(self, dist, vector)
    }

    fn decode<D: Distance>(&self, dist: D, codes: &[u8]) -> (r: Vec<u32>) {
        Int8Quantizer::decode(self, dist, codes)
    }

    fn asymmetric_distance<D: Distance>(&self, dist: D, query: &[u32], codes: &[u8]) -> (d: u32) {
        Int8Quantizer::asymmetric_distance(self, dist, query, codes)
    }

    fn compression_ratio<D: Distance>(&self, dist: D, dim: usize) -> (r: u32) {
        dist.quotient(dist.count(dim * 4), dist.count(dim))
    }
}

impl VectorQuantizer for RaBitQ {
    open spec fn state(&self) -> QuantizerState {
        QuantizerState::RaBitQ(*self)
    }

    open spec fn sizes(&self, dim: usize) -> (int, int) {
        (dim * 4, self.code_len())
    }

    fn encode<D: Distance>(&self, dist: D, vector: &[u32]) -> (r: Vec<u8>) {
        RaBitQ::encode(self, dist, vector)
    }

    fn decode<D: Distance>(&self, dist: D, codes: &[u8]) -> (r: Vec<u32>) {
        RaBitQ::decode(self, dist, codes)
    }

    fn asymmetric_distance<D: Distance>(&self, dist: D, query: &[u32], codes: &[u8]) -> (d: u32) {
        let q = self.query(dist, query);
        proof {
            self.lemma_query_fits(dist, query@, self.centroid@, &q);
            quantizer::lemma_estimates_agree(*self, dist, query@, self.centroid@, codes@, q);
        }
        RaBitQ::distance(self, dist, &q, codes)
    }

    fn compression_ratio<D: Distance>(&self, dist: D, dim: usize) -> (r: u32) {
        dist.quotient(dist.count(dim * 4), dist.count(self.code_size()))
    }
}

/// The fields of a quantizer's record, without the tag in front.
pub open spec fn fields_of(q: QuantizerState) -> Seq<u8> {
    q.record().skip(4)
}

proof fn lemma_tagged(tag: u32, s: Seq<u8>, record: Seq<u8>)
    requires
        record.len() >= 4,
        record.take(4) == bytes::le32(tag),
    ensures
        wire::begins_with(bytes::le32(tag) + s, record) == wire::begins_with(s, record.skip(4)),
        wire::begins_with(bytes::le32(tag) + s, bytes::le32(tag)),
{
    bytes::lemma_le32(tag);
    let head = bytes::le32(tag);
    let all = head + s;
    let n = record.len() as int;
    assert(all.take(4) =~= head);
    if n <= all.len() {
        assert(all.take(n) =~= head + s.take(n - 4));
        assert(record =~= head + record.skip(4));
        if all.take(n) == record {
            assert(all.take(n).skip(4) =~= s.take(n - 4));
        }
    }
}

/// A tag, and then the bytes.
fn tagged(tag: u32, s: &[u8]) -> (r: Vec<u8>)
    ensures
        r@ == bytes::le32(tag) + s@,
{
    let mut r: Vec<u8> = Vec::new();
    bytes::push_u32(&mut r, tag);
    bytes::push_slice(&mut r, s);
    assert(r@ =~= bytes::le32(tag) + s@);
    r
}

/// The bytes without the tag in front.
fn untagged(record: Vec<u8>) -> (r: Vec<u8>)
    requires
        record@.len() >= 4,
    ensures
        r@ == record@.skip(4),
{
    let len: usize = record.len();
    let mut r: Vec<u8> = Vec::new();
    bytes::push_slice(&mut r, vstd::slice::slice_subrange(record.as_slice(), 4, len));
    assert(r@ =~= record@.skip(4));
    r
}

impl ProductQuantizer {
    /// Writes the quantizer for a file of its own.
    pub fn save(&self) -> (r: Vec<u8>)
        ensures
            r@ == fields_of(QuantizerState::PQ(*self)),
    {
        proof {
            quantizer::lemma_record_head(QuantizerState::PQ(*self));
        }
        match wire::serialize_pq(
            self.dim,
            self.num_subspaces,
            self.num_centroids,
            self.subspace_dim,
            &self.codebooks,
        ) {
            Ok(record) => untagged(record),
            Err(_) => Vec::new(),
        }
    }

    /// Reads a quantizer from a file of its own: it succeeds when the bytes start with one.
    pub fn load(s: &[u8]) -> (r: Result<Self, DiskAnnError>)
        ensures
            match r {
                Ok(q) => wire::begins_with(s@, fields_of(QuantizerState::PQ(q))),
                Err(e) => e is Bincode && forall|q: ProductQuantizer|
                    !wire::begins_with(s@, #[trigger] fields_of(QuantizerState::PQ(q))),
            },
    {
        let all = tagged(0, s);
        proof {
            assert forall|q: ProductQuantizer|
                wire::begins_with(s@, #[trigger] fields_of(QuantizerState::PQ(q)))
                    == wire::begins_with(all@, QuantizerState::PQ(q).record()) by {
                quantizer::lemma_record_head(QuantizerState::PQ(q));
                lemma_tagged(0, s@, QuantizerState::PQ(q).record());
            }
            bytes::lemma_le32(0);
            assert(all@.take(4) =~= bytes::le32(0));
        }
        match wire::deserialize_pq(all.as_slice()) {
            Ok(f) => {
                let q = ProductQuantizer {
                    dim: f.1,
                    num_subspaces: f.2,
                    num_centroids: f.3,
                    subspace_dim: f.4,
                    codebooks: f.5,
                };
                assert(wire::begins_with(s@, fields_of(QuantizerState::PQ(q))));
                Ok(q)
            },
            Err(e) => Err(DiskAnnError::Bincode(e)),
        }
    }
}

impl F16Quantizer {
    /// Writes the quantizer for a file of its own.
    pub fn save(&self) -> (r: Vec<u8>)
        ensures
            r@ == fields_of(QuantizerState::F16(*self)),
    {
        proof {
            quantizer::lemma_record_head(QuantizerState::F16(*self));
        }
        match wire::serialize_f16(self.dim) {
            Ok(record) => untagged(record),
            Err(_) => Vec::new(),
        }
    }

    /// Reads a quantizer from a file of its own: it succeeds when the bytes start with one.
    pub fn load(s: &[u8]) -> (r: Result<Self, DiskAnnError>)
        ensures
            match r {
                Ok(q) => wire::begins_with(s@, fields_of(QuantizerState::F16(q))),
                Err(e) => e is Bincode && forall|q: F16Quantizer|
                    !wire::begins_with(s@, #[trigger] fields_of(QuantizerState::F16(q))),
            },
    {
        let all = tagged(1, s);
        proof {
            assert forall|q: F16Quantizer|
                wire::begins_with(s@, #[trigger] fields_of(QuantizerState::F16(q)))
                    == wire::begins_with(all@, QuantizerState::F16(q).record()) by {
                quantizer::lemma_record_head(QuantizerState::F16(q));
                lemma_tagged(1, s@, QuantizerState::F16(q).record());
            }
            bytes::lemma_le32(1);
            assert(all@.take(4) =~= bytes::le32(1));
        }
        match wire::deserialize_f16(all.as_slice()) {
            Ok(f) => {
                let q = F16Quantizer { dim: f.1 };
                assert(wire::begins_with(s@, fields_of(QuantizerState::F16(q))));
                Ok(q)
            },
            Err(e) => Err(DiskAnnError::Bincode(e)),
        }
    }
}

impl Int8Quantizer {
    /// Writes the quantizer for a file of its own.
    pub fn save(&self) -> (r: Vec<u8>)
        ensures
            r@ == fields_of(QuantizerState::Int8(*self)),
    {
        proof {
            quantizer::lemma_record_head(QuantizerState::Int8(*self));
        }
        match wire::serialize_int8(self.dim, &self.scale, &self.offset) {
            Ok(record) => untagged(record),
            Err(_) => Vec::new(),
        }
    }

    /// Reads a quantizer from a file of its own: it succeeds when the bytes start with one.
    pub fn load(s: &[u8]) -> (r: Result<Self, DiskAnnError>)
        ensures
            match r {
                Ok(q) => wire::begins_with(s@, fields_of(QuantizerState::Int8(q))),
                Err(e) => e is Bincode && forall|q: Int8Quantizer|
                    !wire::begins_with(s@, #[trigger] fields_of(QuantizerState::Int8(q))),
            },
    {
        let all = tagged(2, s);
        proof {
            assert forall|q: Int8Quantizer|
                wire::begins_with(s@, #[trigger] fields_of(QuantizerState::Int8(q)))
                    == wire::begins_with(all@, QuantizerState::Int8(q).record()) by {
                quantizer::lemma_record_head(QuantizerState::Int8(q));
                lemma_tagged(2, s@, QuantizerState::Int8(q).record());
            }
            bytes::lemma_le32(2);
            assert(all@.take(4) =~= bytes::le32(2));
        }
        match wire::deserialize_int8(all.as_slice()) {
            Ok(f) => {
                let q = Int8Quantizer { dim: f.1, scale: f.2, offset: f.3 };
                assert(wire::begins_with(s@, fields_of(QuantizerState::Int8(q))));
                Ok(q)
            },
            Err(e) => Err(DiskAnnError::Bincode(e)),
        }
    }
}

/// What a file starts with is the fields of at most one quantizer of a kind, so reading
/// what was written gives the quantizer back.
pub proof fn fields_are_unique(s: Seq<u8>, a: QuantizerState, b: QuantizerState)
    requires
        s.len() + 4 <= u64::MAX,
        a.type_id() == b.type_id(),
        wire::begins_with(s, fields_of(a)),
        wire::begins_with(s, fields_of(b)),
    ensures
        a.same(&b),
{
    let tag = a.type_id() as u32;
    quantizer::lemma_record_head(a);
    quantizer::lemma_record_head(b);
    lemma_tagged(tag, s, a.record());
    lemma_tagged(tag, s, b.record());
    bytes::lemma_le32(tag);
    quantizer::record_is_unique(bytes::le32(tag) + s, a, b);
}

} // verus!
