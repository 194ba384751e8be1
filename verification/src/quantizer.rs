//! The quantizers behind one type: codes of vectors, and distances from codes.
use crate::bytes;
use crate::error::DiskAnnError;
use crate::kmeans;
use crate::metric::Distance;
use crate::metric::MetricKind;
use crate::pq;
use crate::pq::ProductQuantizer;
use crate::rabitq;
use crate::rabitq::RaBitQ;
use crate::rabitq::RaBitQQuery;
use crate::sq::F16Quantizer;
use crate::sq::Int8Quantizer;
use crate::wire;
use vstd::prelude::*;

verus! {

/// A trained quantizer.
pub enum QuantizerState {
    PQ(ProductQuantizer),
    F16(F16Quantizer),
    Int8(Int8Quantizer),
    RaBitQ(RaBitQ),
}

/// What is computed once for a query.
pub enum Prepared {
    Table(Vec<u32>),
    RaBitQ(RaBitQQuery),
    F16(Vec<u16>),
    U8(Vec<u8>),
}

/// The estimate that a bit quantizer gives for a query and a code.
pub open spec fn rabitq_estimate<D: Distance>(
    rq: RaBitQ,
    dist: D,
    query: Seq<u32>,
    centroid: Seq<u32>,
    code: Seq<u8>,
) -> u32 {
    rabitq::estimate(
        dist,
        &rabitq::query_about(dist, rq.padded, rq.signs@, query, centroid),
        code,
    )
}

/// All ways to prepare one query estimate alike.
pub proof fn lemma_estimates_agree<D: Distance>(
    rq: RaBitQ,
    dist: D,
    query: Seq<u32>,
    centroid: Seq<u32>,
    code: Seq<u8>,
    q: RaBitQQuery,
)
    requires
        rq.is_query(dist, query, centroid, &q),
    ensures
        rabitq::estimate(dist, &q, code) == rabitq_estimate(rq, dist, query, centroid, code),
{
    assert(rabitq::is_query_about(dist, rq.padded, rq.signs@, query, centroid, &q));
    let p = rabitq::query_about(dist, rq.padded, rq.signs@, query, centroid);
    assert(rq.is_query(dist, query, centroid, &p));
    assert(p.planes@ == q.planes@);
}

impl QuantizerState {
    /// Components of the vectors.
    pub open spec fn dim_of(&self) -> int {
        match self {
            QuantizerState::PQ(q) => q.dim as int,
            QuantizerState::F16(q) => q.dim as int,
            QuantizerState::Int8(q) => q.dim as int,
            QuantizerState::RaBitQ(q) => q.dim as int,
        }
    }

    pub open spec fn wf(&self) -> bool {
        match self {
            QuantizerState::PQ(q) => q.wf() && q.num_centroids > 0,
            QuantizerState::F16(q) => 2 * q.dim <= usize::MAX,
            QuantizerState::Int8(q) => q.wf(),
            QuantizerState::RaBitQ(q) => q.wf(),
        }
    }

    /// Bytes of a code.
    pub open spec fn code_len(&self) -> int {
        match self {
            QuantizerState::PQ(q) => q.num_subspaces as int,
            QuantizerState::F16(q) => 2 * q.dim,
            QuantizerState::Int8(q) => q.dim as int,
            QuantizerState::RaBitQ(q) => q.code_len(),
        }
    }

    /// The code of a vector.
    pub open spec fn code_of<D: Distance>(&self, dist: D, v: Seq<u32>) -> Seq<u8> {
        match self {
            QuantizerState::PQ(q) => q.code_of(dist, v),
            QuantizerState::F16(q) => bytes::half_bytes(dist.to_half_spec(v)),
            QuantizerState::Int8(q) => q.code_of(dist, v),
            QuantizerState::RaBitQ(q) => q.code_of(dist, v, q.centroid@),
        }
    }

    /// A code of the right form.
    pub open spec fn is_code(&self, code: Seq<u8>) -> bool {
        &&& code.len() == self.code_len()
        &&& match self {
            QuantizerState::PQ(q) => q.is_code(code),
            _ => true,
        }
    }

    /// The vector that a code stands for.
    pub open spec fn decoded<D: Distance>(&self, dist: D, code: Seq<u8>) -> Seq<u32> {
        match self {
            QuantizerState::PQ(q) => q.decoded(code, q.num_subspaces as int),
            QuantizerState::F16(q) => dist.from_half_spec(bytes::halves_of(code)),
            QuantizerState::Int8(q) => q.decoded(dist, code),
            QuantizerState::RaBitQ(q) => q.decoded(dist, code, q.centroid@),
        }
    }

    /// The squared Euclidean distance between a query and a code, as the quantizer
    /// computes it.
    pub open spec fn square_of<D: Distance>(&self, dist: D, query: Seq<u32>, code: Seq<u8>) -> u32 {
        match self {
            QuantizerState::PQ(q) => q.code_distance(dist, query, code, q.num_subspaces as int),
            QuantizerState::F16(q) => dist.half_l2_spec(
                dist.to_half_spec(query),
                bytes::halves_of(code),
            ),
            QuantizerState::Int8(q) => q.scaled_gap(dist, q.code_of(dist, query), code),
            QuantizerState::RaBitQ(q) => rabitq_estimate(*q, dist, query, q.centroid@, code),
        }
    }

    /// The distance between a query and a code under a metric. Euclidean metrics compare
    /// with the code itself; others with the vector that it stands for.
    pub open spec fn distance_of<D: Distance>(
        &self,
        dist: D,
        query: Seq<u32>,
        code: Seq<u8>,
    ) -> u32 {
        match dist.kind_spec() {
            MetricKind::L2 => dist.root_spec(self.square_of(dist, query, code)),
            MetricKind::L2Sq => self.square_of(dist, query, code),
            MetricKind::Other => dist.eval_spec(query, self.decoded(dist, code)),
        }
    }

    /// What was prepared is what this quantizer prepares for the query.
    pub open spec fn is_prepared<D: Distance>(
        &self,
        dist: D,
        query: Seq<u32>,
        prep: &Prepared,
    ) -> bool {
        match (self, prep) {
            (QuantizerState::PQ(q), Prepared::Table(t)) => t@ == q.table_of(dist, query),
            (QuantizerState::RaBitQ(q), Prepared::RaBitQ(p)) => q.is_query(
                dist,
                query,
                q.centroid@,
                p,
            ),
            (QuantizerState::F16(q), Prepared::F16(p)) => p@ == dist.to_half_spec(query)
                && p@.len() == q.dim,
            (QuantizerState::Int8(q), Prepared::U8(p)) => p@ == q.code_of(dist, query) && p@.len()
                == q.dim,
            _ => false,
        }
    }

    /// Whether the quantizer is well-formed.
    pub fn validate(&self) -> (r: bool)
        ensures
            r == self.wf(),
    {
        match self {
            QuantizerState::PQ(q) => q.validate() && q.num_centroids > 0,
            QuantizerState::F16(q) => q.dim <= usize::MAX / 2,
            QuantizerState::Int8(q) => q.validate(),
            QuantizerState::RaBitQ(q) => q.validate(),
        }
    }

    pub fn dim(&self) -> (r: usize)
        ensures
            r == self.dim_of(),
    {
        match self {
            QuantizerState::PQ(q) => q.dim,
            QuantizerState::F16(q) => q.dim,
            QuantizerState::Int8(q) => q.dim,
            QuantizerState::RaBitQ(q) => q.dim,
        }
    }

    /// Bytes of a code.
    pub fn code_size(&self) -> (r: usize)
        requires
            self.wf(),
        ensures
            r == self.code_len(),
    {
        match self {
            QuantizerState::PQ(q) => q.num_subspaces,
            QuantizerState::F16(q) => q.dim * 2,
            QuantizerState::Int8(q) => q.dim,
            QuantizerState::RaBitQ(q) => q.code_size(),
        }
    }

    /// The number that tells the kinds of quantizers apart.
    pub open spec fn type_id(&self) -> u8 {
        match self {
            QuantizerState::PQ(_) => 0,
            QuantizerState::F16(_) => 1,
            QuantizerState::Int8(_) => 2,
            QuantizerState::RaBitQ(_) => 3,
        }
    }

    pub fn quantizer_type_id(&self) -> (r: u8)
        ensures
            r == self.type_id(),
    {
        match self {
            QuantizerState::PQ(_) => 0,
            QuantizerState::F16(_) => 1,
            QuantizerState::Int8(_) => 2,
            QuantizerState::RaBitQ(_) => 3,
        }
    }

    /// Codes a vector.
    pub fn encode<D: Distance>(&self, dist: D, v: &[u32]) -> (r: Vec<u8>)
        requires
            self.wf(),
            v@.len() == self.dim_of(),
        ensures
            r@ == self.code_of(dist, v@),
            self.is_code(r@),
    {
        match self {
            QuantizerState::PQ(q) => q.encode(dist, v),
            QuantizerState::F16(q) => q.encode(dist, v),
            QuantizerState::Int8(q) => q.encode(dist, v),
            QuantizerState::RaBitQ(q) => q.encode(dist, v),
        }
    }

    /// Decodes a code.
    pub fn decode<D: Distance>(&self, dist: D, code: &[u8]) -> (r: Vec<u32>)
        requires
            self.wf(),
            self.is_code(code@),
        ensures
            r@ == self.decoded(dist, code@),
            r@.len() == self.dim_of(),
    {
        match self {
            QuantizerState::PQ(q) => q.decode(code),
            QuantizerState::F16(q) => q.decode(dist, code),
            QuantizerState::Int8(q) => q.decode(dist, code),
            QuantizerState::RaBitQ(q) => q.decode(dist, code),
        }
    }

    /// Computes what does not depend on the code.
    pub fn prepare<D: Distance>(&self, dist: D, query: &[u32]) -> (r: Prepared)
        requires
            self.wf(),
            query@.len() == self.dim_of(),
        ensures
            self.is_prepared(dist, query@, &r),
    {
        match self {
            QuantizerState::PQ(q) => Prepared::Table(q.create_distance_table(dist, query)),
            QuantizerState::RaBitQ(q) => Prepared::RaBitQ(q.query(dist, query)),
            QuantizerState::F16(q) => Prepared::F16(q.prepare(dist, query)),
            QuantizerState::Int8(q) => Prepared::U8(q.encode(dist, query)),
        }
    }

    /// The distance between a query and a code.
    pub fn distance<D: Distance>(&self, dist: D, query: &[u32], prep: &Prepared, code: &[u8]) -> (d:
        u32)
        requires
            self.wf(),
            query@.len() == self.dim_of(),
            self.is_prepared(dist, query@, prep),
            self.is_code(code@),
        ensures
            d == self.distance_of(dist, query@, code@),
            dist.kind_spec() == MetricKind::Other ==> d == dist.eval_spec(
                query@,
                self.decoded(dist, code@),
            ),
    {
        let kind = dist.kind();
        if kind == MetricKind::Other {
            let v = self.decode(dist, code);
            return dist.eval(query, v.as_slice());
        }
        let d: u32 = match (self, prep) {
            (QuantizerState::PQ(q), Prepared::Table(t)) => {
                proof {
                    pq::table_gives_distance(
                        q,
                        dist,
                        query@,
                        code@,
                        q.num_subspaces as int,
                    );
                }
                q.distance_with_table(dist, t.as_slice(), code)
            },
            (QuantizerState::RaBitQ(q), Prepared::RaBitQ(p)) => {
                proof {
                    q.lemma_query_fits(dist, query@, q.centroid@, p);
                    lemma_estimates_agree(*q, dist, query@, q.centroid@, code@, *p);
                }
                q.distance(dist, p, code)
            },
            (QuantizerState::F16(q), Prepared::F16(p)) => q.distance_f16(
                dist,
                p.as_slice(),
                code,
            ),
            (QuantizerState::Int8(q), Prepared::U8(p)) => q.distance_u8(
                dist,
                p.as_slice(),
                code,
            ),
            _ => 0,
        };
        if kind == MetricKind::L2 {
            dist.root(d)
        } else {
            d
        }
    }
}

/// The codes of vectors, one after the other: code `i` stands at `i` times its length.
pub open spec fn codes_of<D: Distance>(
    q: &QuantizerState,
    dist: D,
    vectors: Seq<Seq<u32>>,
    upto: int,
) -> Seq<u8>
    decreases upto,
{
    if upto <= 0 {
        Seq::empty()
    } else {
        codes_of(q, dist, vectors, upto - 1) + q.code_of(dist, vectors[upto - 1])
    }
}

/// Code `i` of a flat buffer.
pub open spec fn code_at(codes: Seq<u8>, i: int, size: int) -> Seq<u8> {
    codes.subrange(i * size, i * size + size)
}

pub proof fn lemma_codes<D: Distance>(
    q: &QuantizerState,
    dist: D,
    vectors: Seq<Seq<u32>>,
    upto: int,
    i: int,
)
    requires
        0 <= i < upto <= vectors.len(),
        0 <= q.code_len(),
        forall|j: int|
            0 <= j < vectors.len() ==> (#[trigger] q.code_of(dist, vectors[j])).len()
                == q.code_len(),
    ensures
        codes_of(q, dist, vectors, upto).len() == upto * q.code_len(),
        code_at(codes_of(q, dist, vectors, upto), i, q.code_len()) == q.code_of(dist, vectors[i]),
    decreases upto,
{
    let size = q.code_len();
    pq::lemma_flat_bounds(upto - 1, upto, size);
    pq::lemma_flat_bounds(i, upto, size);
    assert(q.code_of(dist, vectors[upto - 1]).len() == size);
    let all = codes_of(q, dist, vectors, upto);
    if upto > 1 {
        let k = if i < upto - 1 {
            i
        } else {
            0
        };
        lemma_codes(q, dist, vectors, upto - 1, k);
        let before = codes_of(q, dist, vectors, upto - 1);
        if i < upto - 1 {
            pq::lemma_flat_bounds(i, upto - 1, size);
            assert(code_at(all, i, size) =~= code_at(before, i, size));
        } else {
            assert(code_at(all, i, size) =~= q.code_of(dist, vectors[i]));
        }
    } else {
        assert(codes_of(q, dist, vectors, 0) =~= Seq::empty());
        assert(0 * size == 0) by (nonlinear_arith);
        assert(1 * size == size) by (nonlinear_arith);
        assert(code_at(all, 0, size) =~= q.code_of(dist, vectors[0]));
    }
}

/// Codes vectors, one after the other.
pub fn encode_all<D: Distance>(q: &QuantizerState, dist: D, vectors: &Vec<Vec<u32>>) -> (codes: Vec<
    u8,
>)
    requires
        q.wf(),
        kmeans::level(vectors@, q.dim_of()),
    ensures
        codes@ == codes_of(q, dist, crate::metric::rows(vectors@), vectors@.len() as int),
        holds_codes(q, codes@, vectors@.len() as int),
        codes@.len() == vectors@.len() * q.code_len(),
        forall|i: int|
            0 <= i < vectors@.len() ==> code_at(codes@, i, q.code_len()) == q.code_of(
                dist,
                (#[trigger] vectors@[i])@,
            ),
{
    let mut codes: Vec<u8> = Vec::new();
    let ghost rows = crate::metric::rows(vectors@);
    let mut i: usize = 0;
    while i < vectors.len()
        invariant
            i <= vectors@.len(),
            q.wf(),
            rows == crate::metric::rows(vectors@),
            kmeans::level(vectors@, q.dim_of()),
            codes@ == codes_of(q, dist, rows, i as int),
            forall|j: int| 0 <= j < i ==> q.is_code(q.code_of(dist, #[trigger] rows[j])),
        decreases vectors@.len() - i,
    {
        assert(vectors@[i as int]@.len() == q.dim_of());
        assert(rows[i as int] == vectors@[i as int]@);
        let code = q.encode(dist, vectors[i].as_slice());
        bytes::push_slice(&mut codes, code.as_slice());
        i = i + 1;
    }
    proof {
        let n = vectors@.len() as int;
        let size = q.code_len();
        assert(n == 0 ==> n * size == 0) by (nonlinear_arith);
        assert forall|j: int| 0 <= j < n implies (#[trigger] q.code_of(dist, rows[j])).len()
            == size by {
            assert(q.is_code(q.code_of(dist, rows[j])));
        }
        if n > 0 {
            lemma_codes(q, dist, rows, n, 0);
        }
        assert forall|j: int| 0 <= j < n implies code_at(codes@, j, size) == q.code_of(
            dist,
            (#[trigger] vectors@[j])@,
        ) by {
            lemma_codes(q, dist, rows, n, j);
        }
        assert forall|j: int| 0 <= j < n implies q.is_code(#[trigger] code_at(codes@, j, size)) by {
            assert(rows[j] == vectors@[j]@);
        }
    }
    codes
}

/// A flat buffer holds a code of the right form for each of `n` vectors.
pub open spec fn holds_codes(q: &QuantizerState, codes: Seq<u8>, n: int) -> bool {
    &&& codes.len() >= n * q.code_len()
    &&& forall|i: int| 0 <= i < n ==> q.is_code(#[trigger] code_at(codes, i, q.code_len()))
}

/// Whether a flat buffer holds a code of the right form for each of `n` vectors.
pub fn check_codes(q: &QuantizerState, codes: &Vec<u8>, n: usize) -> (r: bool)
    requires
        q.wf(),
    ensures
        r == holds_codes(q, codes@, n as int),
{
    let size: usize = q.code_size();
    let have: usize = codes.len();
    let need: usize = match n.checked_mul(size) {
        Some(need) => need,
        None => {
            return false;
        },
    };
    if have < need {
        return false;
    }
    let mut i: usize = 0;
    while i < n
        invariant
            i <= n,
            q.wf(),
            size == q.code_len(),
            have == codes@.len(),
            n * size <= have,
            forall|j: int| 0 <= j < i ==> q.is_code(#[trigger] code_at(codes@, j, size as int)),
        decreases n - i,
    {
        proof {
            pq::lemma_flat_bounds(i as int, n as int, size as int);
        }
        let code = code_slice(codes, i, size);
        let good: bool = match q {
            QuantizerState::PQ(p) => byte_codes_below(code, p.num_centroids),
            _ => true,
        };
        if !good {
            assert(!q.is_code(code_at(codes@, i as int, size as int)));
            return false;
        }
        i = i + 1;
    }
    true
}

fn byte_codes_below(code: &[u8], bound: usize) -> (r: bool)
    ensures
        r == forall|m: int| 0 <= m < code@.len() ==> #[trigger] code@[m] < bound,
{
    let mut m: usize = 0;
    while m < code.len()
        invariant
            m <= code@.len(),
            forall|i: int| 0 <= i < m ==> #[trigger] code@[i] < bound,
        decreases code@.len() - m,
    {
        if code[m] as usize >= bound {
            assert(!(code@[m as int] < bound));
            return false;
        }
        m = m + 1;
    }
    true
}

/// Code `i` of a flat buffer.
pub fn code_slice<'a>(codes: &'a Vec<u8>, i: usize, size: usize) -> (r: &'a [u8])
    requires
        i * size + size <= codes@.len(),
    ensures
        r@ == code_at(codes@, i as int, size as int),
        r@.len() == size,
{
    let have: usize = codes.len();
    assert(0 <= i * size) by (nonlinear_arith);
    let start: usize = i * size;
    vstd::slice::slice_subrange(codes.as_slice(), start, start + size)
}

impl QuantizerState {
    /// The quantizer as a record.
    pub open spec fn record(&self) -> Seq<u8> {
        match self {
            QuantizerState::PQ(q) => wire::pq_bytes(
                q.dim,
                q.num_subspaces,
                q.num_centroids,
                q.subspace_dim,
                q.codebooks@,
            ),
            QuantizerState::F16(q) => wire::f16_bytes(q.dim),
            QuantizerState::Int8(q) => wire::int8_bytes(q.dim, q.scale@, q.offset@),
            QuantizerState::RaBitQ(q) => wire::rabitq_bytes(
                q.dim,
                q.padded,
                q.centroid@,
                q.signs@,
            ),
        }
    }

    /// The same kind of quantizer with the same fields.
    pub open spec fn same(&self, other: &QuantizerState) -> bool {
        match (self, other) {
            (QuantizerState::PQ(a), QuantizerState::PQ(b)) => {
                &&& a.dim == b.dim
                &&& a.num_subspaces == b.num_subspaces
                &&& a.num_centroids == b.num_centroids
                &&& a.subspace_dim == b.subspace_dim
                &&& a.codebooks@ == b.codebooks@
            },
            (QuantizerState::F16(a), QuantizerState::F16(b)) => a == b,
            (QuantizerState::Int8(a), QuantizerState::Int8(b)) => {
                &&& a.dim == b.dim
                &&& a.scale@ == b.scale@
                &&& a.offset@ == b.offset@
            },
            (QuantizerState::RaBitQ(a), QuantizerState::RaBitQ(b)) => {
                &&& a.dim == b.dim
                &&& a.padded == b.padded
                &&& a.centroid@ == b.centroid@
                &&& a.signs@ == b.signs@
            },
            _ => false,
        }
    }

    /// Writes the quantizer as a record.
    pub fn to_record(&self) -> (r: Vec<u8>)
        ensures
            r@ == self.record(),
    {
        let written: Result<Vec<u8>, Box<bincode::ErrorKind>> = match self {
            QuantizerState::PQ(q) => wire::serialize_pq(
                q.dim,
                q.num_subspaces,
                q.num_centroids,
                q.subspace_dim,
                &q.codebooks,
            ),
            QuantizerState::F16(q) => wire::serialize_f16(q.dim),
            QuantizerState::Int8(q) => wire::serialize_int8(q.dim, &q.scale, &q.offset),
            QuantizerState::RaBitQ(q) => wire::serialize_rabitq(
                q.dim,
                q.padded,
                &q.centroid,
                &q.signs,
            ),
        };
        match written {
            Ok(r) => r,
            Err(_) => Vec::new(),
        }
    }

    /// Reading a quantizer from `s` gives `r`.
    pub open spec fn read_as(s: Seq<u8>, r: Result<QuantizerState, DiskAnnError>) -> bool {
        match r {
            Ok(q) => wire::begins_with(s, q.record()),
            Err(e) => {
                &&& forall|q: QuantizerState| !wire::begins_with(s, #[trigger] q.record())
                &&& e is Bincode
            },
        }
    }

    /// Reads a quantizer: it succeeds when the bytes start with a quantizer's record.
    pub fn from_record(s: &[u8]) -> (r: Result<QuantizerState, DiskAnnError>)
        ensures
            Self::read_as(s@, r),
    {
        let ghost all = s@;
        let tag: u32 = match wire::deserialize_tag(s) {
            Ok(tag) => tag,
            Err(e) => {
                proof {
                    assert forall|q: QuantizerState| !wire::begins_with(all, #[trigger] q.record()) by {
                        if wire::begins_with(all, q.record()) {
                            lemma_record_tag(all, q);
                        }
                    }
                }
                return Err(DiskAnnError::Bincode(e));
            },
        };
        proof {
            bytes::lemma_le32(tag);
            assert(all.subrange(0, 4) =~= all.take(4));
            assert(bytes::word_at(all, 0) == tag);
            assert forall|q: QuantizerState|
                wire::begins_with(all, #[trigger] q.record()) implies q.type_id() == tag by {
                lemma_record_tag(all, q);
            }
        }
        if tag == 0 {
            match wire::deserialize_pq(s) {
                Ok(f) => Ok(
                    QuantizerState::PQ(
                        ProductQuantizer {
                            dim: f.1,
                            num_subspaces: f.2,
                            num_centroids: f.3,
                            subspace_dim: f.4,
                            codebooks: f.5,
                        },
                    ),
                ),
                Err(e) => {
                    proof {
                        assert forall|q: QuantizerState|
                            !wire::begins_with(all, #[trigger] q.record()) by {}
                    }
                    Err(DiskAnnError::Bincode(e))
                },
            }
        } else if tag == 1 {
            match wire::deserialize_f16(s) {
                Ok(f) => Ok(QuantizerState::F16(F16Quantizer { dim: f.1 })),
                Err(e) => {
                    proof {
                        assert forall|q: QuantizerState|
                            !wire::begins_with(all, #[trigger] q.record()) by {}
                    }
                    Err(DiskAnnError::Bincode(e))
                },
            }
        } else if tag == 2 {
            match wire::deserialize_int8(s) {
                Ok(f) => Ok(
                    QuantizerState::Int8(Int8Quantizer { dim: f.1, scale: f.2, offset: f.3 }),
                ),
                Err(e) => {
                    proof {
                        assert forall|q: QuantizerState|
                            !wire::begins_with(all, #[trigger] q.record()) by {}
                    }
                    Err(DiskAnnError::Bincode(e))
                },
            }
        } else if tag == 3 {
            match wire::deserialize_rabitq(s) {
                Ok(f) => Ok(
                    QuantizerState::RaBitQ(
                        RaBitQ { dim: f.1, padded: f.2, centroid: f.3, signs: f.4 },
                    ),
                ),
                Err(e) => {
                    proof {
                        assert forall|q: QuantizerState|
                            !wire::begins_with(all, #[trigger] q.record()) by {}
                    }
                    Err(DiskAnnError::Bincode(e))
                },
            }
        } else {
            proof {
                assert forall|q: QuantizerState| !wire::begins_with(all, #[trigger] q.record()) by {}
            }
            Err(DiskAnnError::Bincode(wire::unknown_variant(tag, "variant index 0 <= i < 4")))
        }
    }
}

/// What a record holds after its tag.
spec fn record_tail(q: QuantizerState) -> Seq<u8> {
    match q {
        QuantizerState::PQ(q) => bytes::le64(q.dim as u64) + (bytes::le64(q.num_subspaces as u64) + (
        bytes::le64(q.num_centroids as u64) + (bytes::le64(q.subspace_dim as u64) + (
        wire::list_bytes(q.codebooks@) + Seq::<u8>::empty())))),
        QuantizerState::F16(q) => bytes::le64(q.dim as u64) + Seq::<u8>::empty(),
        QuantizerState::Int8(q) => bytes::le64(q.dim as u64) + (wire::list_bytes(q.scale@) + (
        wire::list_bytes(q.offset@) + Seq::<u8>::empty())),
        QuantizerState::RaBitQ(q) => bytes::le64(q.dim as u64) + (bytes::le64(q.padded as u64) + (
        wire::list_bytes(q.centroid@) + (wire::list_bytes(q.signs@) + Seq::<u8>::empty()))),
    }
}

proof fn lemma_record_parts(q: QuantizerState)
    ensures
        q.record() == bytes::le32(q.type_id() as u32) + record_tail(q),
{
    assert(q.record() =~= bytes::le32(q.type_id() as u32) + record_tail(q));
}

pub(crate) proof fn lemma_record_tag(s: Seq<u8>, q: QuantizerState)
    requires
        wire::begins_with(s, q.record()),
    ensures
        s.len() >= 4,
        bytes::word_at(s, 0) == q.type_id(),
{
    lemma_record_parts(q);
    let tag = bytes::le32(q.type_id() as u32);
    bytes::lemma_le32(q.type_id() as u32);
    assert(s.subrange(0, 4) =~= s.take(q.record().len() as int).take(4));
    assert(q.record().take(4) =~= tag);
}

/// A record begins with its tag.
pub proof fn lemma_record_head(q: QuantizerState)
    ensures
        q.record().len() >= 4,
        q.record().take(4) == bytes::le32(q.type_id() as u32),
{
    lemma_record_parts(q);
    bytes::lemma_le32(q.type_id() as u32);
    assert(q.record().take(4) =~= bytes::le32(q.type_id() as u32));
}

/// Bytes start with the record of at most one quantizer.
pub proof fn record_is_unique(s: Seq<u8>, a: QuantizerState, b: QuantizerState)
    requires
        s.len() <= u64::MAX,
        wire::begins_with(s, a.record()),
        wire::begins_with(s, b.record()),
    ensures
        a.same(&b),
{
    lemma_record_parts(a);
    lemma_record_parts(b);
    lemma_record_tag(s, a);
    lemma_record_tag(s, b);
    wire::lemma_same_u32(
        s,
        a.type_id() as u32,
        record_tail(a),
        b.type_id() as u32,
        record_tail(b),
    );
    let s0 = s.skip(4);
    let none = Seq::<u8>::empty();
    match (a, b) {
        (QuantizerState::PQ(x), QuantizerState::PQ(y)) => {
            let x5 = wire::list_bytes(x.codebooks@) + none;
            let y5 = wire::list_bytes(y.codebooks@) + none;
            let x4 = bytes::le64(x.subspace_dim as u64) + x5;
            let y4 = bytes::le64(y.subspace_dim as u64) + y5;
            let x3 = bytes::le64(x.num_centroids as u64) + x4;
            let y3 = bytes::le64(y.num_centroids as u64) + y4;
            let x2 = bytes::le64(x.num_subspaces as u64) + x3;
            let y2 = bytes::le64(y.num_subspaces as u64) + y3;
            wire::lemma_same_u64(s0, x.dim as u64, x2, y.dim as u64, y2);
            let s1 = s0.skip(8);
            wire::lemma_same_u64(s1, x.num_subspaces as u64, x3, y.num_subspaces as u64, y3);
            let s2 = s1.skip(8);
            wire::lemma_same_u64(s2, x.num_centroids as u64, x4, y.num_centroids as u64, y4);
            let s3 = s2.skip(8);
            wire::lemma_same_u64(s3, x.subspace_dim as u64, x5, y.subspace_dim as u64, y5);
            let s4 = s3.skip(8);
            wire::lemma_same_list(s4, x.codebooks@, none, y.codebooks@, none);
        },
        (QuantizerState::F16(x), QuantizerState::F16(y)) => {
            wire::lemma_same_u64(s0, x.dim as u64, none, y.dim as u64, none);
        },
        (QuantizerState::Int8(x), QuantizerState::Int8(y)) => {
            let x3 = wire::list_bytes(x.offset@) + none;
            let y3 = wire::list_bytes(y.offset@) + none;
            let x2 = wire::list_bytes(x.scale@) + x3;
            let y2 = wire::list_bytes(y.scale@) + y3;
            wire::lemma_same_u64(s0, x.dim as u64, x2, y.dim as u64, y2);
            let s1 = s0.skip(8);
            wire::lemma_same_list(s1, x.scale@, x3, y.scale@, y3);
            let s2 = s1.skip(wire::list_bytes(x.scale@).len() as int);
            wire::lemma_same_list(s2, x.offset@, none, y.offset@, none);
        },
        (QuantizerState::RaBitQ(x), QuantizerState::RaBitQ(y)) => {
            let x4 = wire::list_bytes(x.signs@) + none;
            let y4 = wire::list_bytes(y.signs@) + none;
            let x3 = wire::list_bytes(x.centroid@) + x4;
            let y3 = wire::list_bytes(y.centroid@) + y4;
            let x2 = bytes::le64(x.padded as u64) + x3;
            let y2 = bytes::le64(y.padded as u64) + y3;
            wire::lemma_same_u64(s0, x.dim as u64, x2, y.dim as u64, y2);
            let s1 = s0.skip(8);
            wire::lemma_same_u64(s1, x.padded as u64, x3, y.padded as u64, y3);
            let s2 = s1.skip(8);
            wire::lemma_same_list(s2, x.centroid@, x4, y.centroid@, y4);
            let s3 = s2.skip(wire::list_bytes(x.centroid@).len() as int);
            wire::lemma_same_list(s3, x.signs@, none, y.signs@, none);
        },
        _ => {},
    }
}

/// Reading what was written gives the quantizer back, whatever follows it.
pub proof fn record_reads_back(
    q: QuantizerState,
    rest: Seq<u8>,
    r: Result<QuantizerState, DiskAnnError>,
)
    requires
        (q.record() + rest).len() <= u64::MAX,
        QuantizerState::read_as(q.record() + rest, r),
    ensures
        r is Ok,
        q.same(&r->Ok_0),
{
    let s = q.record() + rest;
    assert(s.take(q.record().len() as int) =~= q.record());
    assert(wire::begins_with(s, q.record()));
    record_is_unique(s, q, r->Ok_0);
}

proof fn lemma_same_pieces<D: Distance>(
    a: ProductQuantizer,
    b: ProductQuantizer,
    dist: D,
    query: Seq<u32>,
    code: Seq<u8>,
    upto: int,
)
    requires
        a.subspace_dim == b.subspace_dim,
        a.num_centroids == b.num_centroids,
        a.codebooks@ == b.codebooks@,
    ensures
        a.decoded(code, upto) == b.decoded(code, upto),
        a.code_distance(dist, query, code, upto) == b.code_distance(dist, query, code, upto),
    decreases upto,
{
    if upto > 0 {
        lemma_same_pieces(a, b, dist, query, code, upto - 1);
        assert(a.centroid(upto - 1, code[upto - 1] as int) == b.centroid(
            upto - 1,
            code[upto - 1] as int,
        ));
        assert(a.piece(query, upto - 1) == b.piece(query, upto - 1));
    }
}

proof fn lemma_same_gaps<D: Distance>(
    a: Int8Quantizer,
    b: Int8Quantizer,
    dist: D,
    query: Seq<u8>,
    code: Seq<u8>,
    upto: int,
)
    requires
        a.scale@ == b.scale@,
    ensures
        a.gap_sum(dist, query, code, upto) == b.gap_sum(dist, query, code, upto),
    decreases upto,
{
    if upto > 0 {
        lemma_same_gaps(a, b, dist, query, code, upto - 1);
    }
}

/// Quantizers with the same fields code, decode and prepare alike.
pub proof fn same_quantizers_code_alike<D: Distance>(
    a: QuantizerState,
    b: QuantizerState,
    dist: D,
    v: Seq<u32>,
)
    requires
        a.same(&b),
    ensures
        a.wf() == b.wf(),
        a.dim_of() == b.dim_of(),
        a.code_len() == b.code_len(),
        a.code_of(dist, v) == b.code_of(dist, v),
        forall|code: Seq<u8>| #[trigger] a.is_code(code) == b.is_code(code),
        forall|code: Seq<u8>| #[trigger] a.decoded(dist, code) == b.decoded(dist, code),
        forall|prep: Prepared| #[trigger]
            a.is_prepared(dist, v, &prep) == b.is_prepared(dist, v, &prep),
{
    match (a, b) {
        (QuantizerState::PQ(x), QuantizerState::PQ(y)) => {
            assert forall|m: int| x.book(m) =~= #[trigger] y.book(m) by {
                assert forall|k: int| x.centroid(m, k) == y.centroid(m, k) by {
                }
            }
            assert(x.code_of(dist, v) =~= y.code_of(dist, v)) by {
                assert forall|m: int| 0 <= m < x.num_subspaces implies x.code_of(dist, v)[m]
                    == y.code_of(dist, v)[m] by {
                    assert(x.book(m) == y.book(m));
                }
            }
            assert(x.table_of(dist, v) =~= y.table_of(dist, v));
            assert forall|code: Seq<u8>| #[trigger]
                a.decoded(dist, code) == b.decoded(dist, code) by {
                lemma_same_pieces(x, y, dist, v, code, x.num_subspaces as int);
            }
        },
        (QuantizerState::Int8(x), QuantizerState::Int8(y)) => {
            assert(x.code_of(dist, v) =~= y.code_of(dist, v));
            assert forall|code: Seq<u8>| #[trigger]
                a.decoded(dist, code) == b.decoded(dist, code) by {
                assert(x.decoded(dist, code) =~= y.decoded(dist, code));
            }
        },
        (QuantizerState::RaBitQ(x), QuantizerState::RaBitQ(y)) => {
            assert forall|code: Seq<u8>| #[trigger]
                a.decoded(dist, code) == b.decoded(dist, code) by {
                assert(x.decoded(dist, code, x.centroid@) =~= y.decoded(dist, code, y.centroid@));
            }
        },
        _ => {},
    }
}

/// Quantizers with the same fields measure the distance between a query and a code alike.
pub proof fn same_quantizers_measure_alike<D: Distance>(
    a: QuantizerState,
    b: QuantizerState,
    dist: D,
    query: Seq<u32>,
    code: Seq<u8>,
)
    requires
        a.same(&b),
    ensures
        a.distance_of(dist, query, code) == b.distance_of(dist, query, code),
{
    same_quantizers_code_alike(a, b, dist, query);
    assert(a.decoded(dist, code) == b.decoded(dist, code));
    match (a, b) {
        (QuantizerState::PQ(x), QuantizerState::PQ(y)) => {
            lemma_same_pieces(x, y, dist, query, code, x.num_subspaces as int);
        },
        (QuantizerState::Int8(x), QuantizerState::Int8(y)) => {
            let c = x.code_of(dist, query);
            assert(c == y.code_of(dist, query));
            lemma_same_gaps(x, y, dist, c, code, c.len() as int);
            assert(x.is_even() == y.is_even());
        },
        _ => {},
    }
}

} // verus!
