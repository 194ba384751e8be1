//! What codes stand for, and how far a query is from them.
use crate::beam::BeamSearchConfig;
use crate::beam::Trace;
use crate::bytes;
use crate::candidate::Candidate;
use crate::filter::Filter;
use crate::metric::Distance;
use crate::metric::MetricKind;
use crate::pq;
use crate::pq::ProductQuantizer;
use crate::quantized;
use crate::quantized::QuantizedDiskANN;
use crate::quantizer::Prepared;
use crate::quantizer::QuantizerState;
use crate::sq::F16Quantizer;
use crate::sq::Int8Quantizer;
use crate::word;
use vstd::prelude::*;

verus! {

/// A metric that is not Euclidean is never replaced by one that is: the distance of a
/// code is the metric's own, between the query and the vector that the code decodes to.
pub proof fn other_metrics_see_the_decoded_vector<D: Distance>(
    q: &QuantizerState,
    dist: D,
    query: Seq<u32>,
    code: Seq<u8>,
)
    requires
        dist.kind_spec() == MetricKind::Other,
    ensures
        q.distance_of(dist, query, code) == dist.eval_spec(query, q.decoded(dist, code)),
{
}

/// The squared distances between the first `upto` pieces of two vectors, each piece of
/// `width` components, added in turn.
pub open spec fn piecewise<D: Distance>(
    dist: D,
    a: Seq<u32>,
    b: Seq<u32>,
    width: int,
    upto: int,
) -> u32
    decreases upto,
{
    if upto <= 0 {
        0
    } else {
        let at = (upto - 1) * width;
        dist.sum_spec(
            piecewise(dist, a, b, width, upto - 1),
            dist.square_l2_spec(a.subrange(at, at + width), b.subrange(at, at + width)),
        )
    }
}

proof fn lemma_decoded_pieces(q: &ProductQuantizer, code: Seq<u8>, upto: int, m: int)
    requires
        q.wf(),
        q.is_code(code),
        0 <= m < upto <= q.num_subspaces,
    ensures
        q.decoded(code, upto).len() == upto * q.subspace_dim,
        q.decoded(code, upto).subrange(
            m * q.subspace_dim,
            m * q.subspace_dim + q.subspace_dim,
        ) == q.centroid(m, code[m] as int),
    decreases upto,
{
    let w = q.subspace_dim as int;
    assert(code[upto - 1] < q.num_centroids);
    q.lemma_bounds(upto - 1, code[upto - 1] as int);
    assert(q.centroid(upto - 1, code[upto - 1] as int).len() == w);
    pq::lemma_flat_bounds(upto - 1, upto, w);
    pq::lemma_flat_bounds(m, upto, w);
    let all = q.decoded(code, upto);
    let before = q.decoded(code, upto - 1);
    if upto > 1 {
        let k = if m < upto - 1 {
            m
        } else {
            0
        };
        lemma_decoded_pieces(q, code, upto - 1, k);
        if m < upto - 1 {
            pq::lemma_flat_bounds(m, upto - 1, w);
            assert(all.subrange(m * w, m * w + w) =~= before.subrange(m * w, m * w + w));
        } else {
            assert(all.subrange(m * w, m * w + w) =~= q.centroid(m, code[m] as int));
        }
    } else {
        assert(before =~= Seq::empty());
        assert(0 * w == 0 && 1 * w == w) by (nonlinear_arith);
        assert(all.subrange(0, w) =~= q.centroid(0, code[0] as int));
    }
}

/// What a product quantizer decodes a code to: component `j` of piece `m` is that of the
/// centroid that the code names for the piece.
pub proof fn pieces_decode_to_centroids<D: Distance>(
    q: ProductQuantizer,
    dist: D,
    code: Seq<u8>,
    m: int,
    j: int,
)
    requires
        q.wf(),
        q.is_code(code),
        0 <= m < q.num_subspaces,
        0 <= j < q.subspace_dim,
    ensures
        QuantizerState::PQ(q).decoded(dist, code).len() == q.dim,
        QuantizerState::PQ(q).decoded(dist, code)[m * q.subspace_dim + j] == q.codebooks@[(m
            * q.num_centroids + code[m]) * q.subspace_dim + j],
{
    let w = q.subspace_dim as int;
    lemma_decoded_pieces(&q, code, q.num_subspaces as int, m);
    assert(code[m] < q.num_centroids);
    q.lemma_bounds(m, code[m] as int);
    let v = QuantizerState::PQ(q).decoded(dist, code);
    let c = q.centroid(m, code[m] as int);
    assert(v.subrange(m * w, m * w + w)[j] == v[m * w + j]);
    assert(c[j] == q.codebooks@[(m * q.num_centroids + code[m]) * w + j]);
}

proof fn lemma_piecewise<D: Distance>(
    q: &ProductQuantizer,
    dist: D,
    query: Seq<u32>,
    code: Seq<u8>,
    upto: int,
)
    requires
        q.wf(),
        q.is_code(code),
        0 <= upto <= q.num_subspaces,
    ensures
        q.code_distance(dist, query, code, upto) == piecewise(
            dist,
            query,
            q.decoded(code, q.num_subspaces as int),
            q.subspace_dim as int,
            upto,
        ),
    decreases upto,
{
    if upto > 0 {
        lemma_piecewise(q, dist, query, code, upto - 1);
        lemma_decoded_pieces(q, code, q.num_subspaces as int, upto - 1);
    }
}

/// Under a Euclidean metric a product quantizer's distance is that between the query and
/// the decoded vector, piece by piece; its root where the metric takes roots.
pub proof fn pieces_are_compared<D: Distance>(
    q: ProductQuantizer,
    dist: D,
    query: Seq<u32>,
    code: Seq<u8>,
)
    requires
        q.wf(),
        q.is_code(code),
    ensures
        ({
            let s = QuantizerState::PQ(q);
            let square = piecewise(
                dist,
                query,
                s.decoded(dist, code),
                q.subspace_dim as int,
                q.num_subspaces as int,
            );
            &&& dist.kind_spec() == MetricKind::L2Sq ==> s.distance_of(dist, query, code) == square
            &&& dist.kind_spec() == MetricKind::L2 ==> s.distance_of(dist, query, code)
                == dist.root_spec(square)
        }),
{
    lemma_piecewise(&q, dist, query, code, q.num_subspaces as int);
}

/// A half-precision code keeps the vector in half precision, two bytes to a component:
/// distances compare halves with halves under a Euclidean metric, and else the query with
/// the halves in full precision again.
pub proof fn halves_are_compared<D: Distance>(dim: usize, dist: D, query: Seq<u32>, v: Seq<u32>)
    ensures
        ({
            let s = QuantizerState::F16(F16Quantizer { dim });
            let code = s.code_of(dist, v);
            let square = dist.half_l2_spec(dist.to_half_spec(query), dist.to_half_spec(v));
            &&& code.len() == 2 * dist.to_half_spec(v).len()
            &&& forall|i: int|
                0 <= i < dist.to_half_spec(v).len() ==> code[2 * i] + 256 * code[2 * i + 1]
                    == #[trigger] dist.to_half_spec(v)[i]
            &&& s.decoded(dist, code) == dist.from_half_spec(dist.to_half_spec(v))
            &&& dist.kind_spec() == MetricKind::L2Sq ==> s.distance_of(dist, query, code) == square
            &&& dist.kind_spec() == MetricKind::L2 ==> s.distance_of(dist, query, code)
                == dist.root_spec(square)
            &&& dist.kind_spec() == MetricKind::Other ==> s.distance_of(dist, query, code)
                == dist.eval_spec(query, dist.from_half_spec(dist.to_half_spec(v)))
        }),
{
    bytes::halves_round_trip(dist.to_half_spec(v));
    let h = dist.to_half_spec(v);
    assert forall|i: int| 0 <= i < h.len() implies bytes::half_bytes(h)[2 * i] + 256
        * bytes::half_bytes(h)[2 * i + 1] == #[trigger] h[i] by {
        assert((2 * i) % 2 == 0 && (2 * i) / 2 == i);
        assert((2 * i + 1) % 2 == 1 && (2 * i + 1) / 2 == i);
    }
}

/// What a byte code decodes to: each byte times the step of its place, plus the offset.
pub proof fn bytes_decode_by_steps<D: Distance>(q: Int8Quantizer, dist: D, code: Seq<u8>, i: int)
    requires
        0 <= i < code.len(),
    ensures
        QuantizerState::Int8(q).decoded(dist, code).len() == code.len(),
        QuantizerState::Int8(q).decoded(dist, code)[i] == dist.sum_spec(
            dist.product_spec(dist.count_spec(code[i] as usize), q.scale@[i]),
            q.offset@[i],
        ),
{
}

/// Component `i` of a vector is coded as it is without its offset and in steps, rounded
/// to a byte.
pub proof fn bytes_count_steps<D: Distance>(q: Int8Quantizer, dist: D, v: Seq<u32>, i: int)
    requires
        0 <= i < v.len(),
    ensures
        QuantizerState::Int8(q).code_of(dist, v).len() == v.len(),
        QuantizerState::Int8(q).code_of(dist, v)[i] == dist.to_bytes_spec(
            seq![v[i]],
            dist.quotient_spec(0x3f80_0000, q.scale@[i]),
            dist.quotient_spec(word::negated(q.offset@[i]), q.scale@[i]),
        )[0],
{
}

/// The squared differences of the first `upto` bytes, each in the measure of its step,
/// added in turn.
pub open spec fn measured_gaps<D: Distance>(
    dist: D,
    a: Seq<u8>,
    b: Seq<u8>,
    steps: Seq<u32>,
    upto: int,
) -> u32
    decreases upto,
{
    if upto <= 0 {
        0
    } else {
        let gap = a[upto - 1] - b[upto - 1];
        let step = steps[upto - 1];
        dist.sum_spec(
            measured_gaps(dist, a, b, steps, upto - 1),
            dist.product_spec(
                dist.product_spec(dist.count_spec((gap * gap) as usize), step),
                step,
            ),
        )
    }
}

/// The squared differences of the first `upto` bytes, as whole numbers.
pub open spec fn whole_gaps(a: Seq<u8>, b: Seq<u8>, upto: int) -> int
    decreases upto,
{
    if upto <= 0 {
        0
    } else {
        whole_gaps(a, b, upto - 1) + (a[upto - 1] - b[upto - 1]) * (a[upto - 1] - b[upto - 1])
    }
}

proof fn lemma_measured<D: Distance>(q: &Int8Quantizer, dist: D, a: Seq<u8>, b: Seq<u8>, upto: int)
    ensures
        q.gap_sum(dist, a, b, upto) == measured_gaps(dist, a, b, q.scale@, upto),
        crate::sq::byte_gap(a, b, upto) == whole_gaps(a, b, upto),
    decreases upto,
{
    if upto > 0 {
        lemma_measured(q, dist, a, b, upto - 1);
    }
}

/// Under a Euclidean metric byte codes are compared byte by byte, each difference in the
/// step of its place. Where all steps are one, the bytes are summed first.
pub proof fn bytes_are_compared<D: Distance>(
    q: Int8Quantizer,
    dist: D,
    query: Seq<u32>,
    code: Seq<u8>,
)
    requires
        q.wf(),
        query.len() == q.dim,
        q.dim > 0,
    ensures
        ({
            let s = QuantizerState::Int8(q);
            let coded = s.code_of(dist, query);
            let n = q.dim as int;
            let step = q.scale@[0];
            let one_step = forall|i: int| 0 <= i < n ==> #[trigger] q.scale@[i] == step;
            let square = if one_step {
                dist.product_spec(
                    dist.product_spec(dist.count_spec(whole_gaps(coded, code, n) as usize), step),
                    step,
                )
            } else {
                measured_gaps(dist, coded, code, q.scale@, n)
            };
            &&& dist.kind_spec() == MetricKind::L2Sq ==> s.distance_of(dist, query, code) == square
            &&& dist.kind_spec() == MetricKind::L2 ==> s.distance_of(dist, query, code)
                == dist.root_spec(square)
        }),
{
    let coded = q.code_of(dist, query);
    lemma_measured(&q, dist, coded, code, q.dim as int);
    let step = q.scale@[0];
    if forall|i: int| 0 <= i < q.dim ==> #[trigger] q.scale@[i] == step {
        assert(q.is_even());
    }
    if q.is_even() {
        assert forall|i: int| 0 <= i < q.dim implies #[trigger] q.scale@[i] == step by {
            assert(q.scale@[i] == q.scale@[0]);
        }
    }
}

/// A search by codes that does not compare again returns, under a metric that is not
/// Euclidean, the metric's own distance between the query and what each code decodes to;
/// under a Euclidean one, that of the code. One that does compare again returns the
/// distance of the vector.
pub proof fn quantized_answers_are_measured<D: Distance>(
    index: &QuantizedDiskANN<D>,
    query: &[u32],
    filter: Option<(&Vec<Vec<u64>>, &Filter)>,
    k: int,
    beam_width: int,
    config: BeamSearchConfig,
    prep: Prepared,
    t: Trace,
    found: Seq<Candidate>,
    r: Seq<Candidate>,
    i: int,
)
    requires
        k >= 0,
        index.valid(),
        query@.len() == index.base.dim,
        filter matches Some(f) ==> f.0@.len() == index.base.num_vectors,
        index.search_result(query, filter, k, beam_width, config, prep, t, found, r),
        0 <= i < r.len(),
    ensures
        ({
            let id = r[i].id as int;
            let size = index.code_size as int;
            let code = index.codes@.subrange(id * size, id * size + size);
            let dist = index.base.dist;
            &&& id < index.base.num_vectors
            &&& index.rerank_size > 0 ==> r[i].dist == dist.eval_spec(
                query@,
                index.base.vector(id),
            )
            &&& index.rerank_size == 0 && dist.kind_spec() == MetricKind::Other ==> r[i].dist
                == dist.eval_spec(query@, index.quantizer.decoded(dist, code))
            &&& index.rerank_size == 0 ==> r[i].dist == index.quantizer.distance_of(
                dist,
                query@,
                code,
            )
        }),
{
    quantized::answers_are_vectors(
        index,
        query,
        filter,
        k,
        beam_width,
        config,
        prep,
        t,
        found,
        r,
    );
}

} // verus!
