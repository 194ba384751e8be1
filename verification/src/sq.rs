//! Scalar quantizers: each component is coded by itself.
use crate::bytes;
use crate::error::DiskAnnError;
use crate::kmeans;
use crate::metric::Distance;
use crate::rabitq;
use crate::word;
use vstd::prelude::*;

verus! {

/// The pattern of 4.0.
pub const FOUR: u32 = 0x4080_0000;

/// The gap between 1.0 and the next number.
pub const EPSILON: u32 = 0x3400_0000;

/// Codes up to this length have squared distances that fit in 32 bits.
pub const MAX_BYTE_CODE: usize = 66051;

/// The most bytes that are compared at once: their squared distance is below a quarter of
/// what 32 bits can tell.
pub const MAX_RUN: usize = 16512;

/// Figures about a scalar quantizer.
pub struct SQStats {
    pub kind: String,
    pub dim: usize,
    pub code_size_bytes: usize,
    /// Bytes of a vector over bytes of its code.
    pub compression_ratio: u32,
    pub trained: bool,
}

/// Half-precision codes: two bytes per component.
#[derive(Clone, Copy, Debug)]
pub struct F16Quantizer {
    pub dim: usize,
}

impl F16Quantizer {
    /// A quantizer of vectors with `dim` components.
    pub fn new(dim: usize) -> (r: Self)
        ensures
            r.dim == dim,
    {
        F16Quantizer { dim }
    }

    /// Components of the vectors.
    pub fn dim(&self) -> (r: usize)
        ensures
            r == self.dim,
    {
        self.dim
    }

    /// A query in half precision.
    pub fn prepare<D: Distance>(&self, dist: D, query: &[u32]) -> (r: Vec<u16>)
        requires
            query@.len() == self.dim,
        ensures
            r@ == dist.to_half_spec(query@),
            r@.len() == self.dim,
    {
        dist.to_half(query)
    }

    /// The squared distance between a prepared query and a code.
    pub fn distance_f16<D: Distance>(&self, dist: D, query: &[u16], codes: &[u8]) -> (d: u32)
        requires
            codes@.len() / 2 == query@.len(),
        ensures
            d == dist.half_l2_spec(query@, bytes::halves_of(codes@)),
    {
        let halves = bytes::read_halves(codes);
        dist.half_l2(query, halves.as_slice())
    }

    /// The code of a vector.
    pub fn encode<D: Distance>(&self, dist: D, vector: &[u32]) -> (r: Vec<u8>)
        requires
            vector@.len() == self.dim,
        ensures
            r@ == bytes::half_bytes(dist.to_half_spec(vector@)),
            r@.len() == 2 * self.dim,
    {
        let halves = self.prepare(dist, vector);
        bytes::write_halves(&halves)
    }

    /// The vector that a code stands for.
    pub fn decode<D: Distance>(&self, dist: D, codes: &[u8]) -> (r: Vec<u32>)
        requires
            codes@.len() == 2 * self.dim,
        ensures
            r@ == dist.from_half_spec(bytes::halves_of(codes@)),
            r@.len() == self.dim,
    {
        let halves = bytes::read_halves(codes);
        dist.from_half(halves.as_slice())
    }

    /// The squared distance between a query and a code.
    pub fn asymmetric_distance<D: Distance>(&self, dist: D, query: &[u32], codes: &[u8]) -> (d: u32)
        requires
            query@.len() == self.dim,
            codes@.len() == 2 * self.dim,
        ensures
            d == dist.half_l2_spec(dist.to_half_spec(query@), bytes::halves_of(codes@)),
    {
        let prepared = self.prepare(dist, query);
        self.distance_f16(dist, prepared.as_slice(), codes)
    }

    /// Figures about the quantizer.
    pub fn stats(&self) -> (r: SQStats)
        requires
            self.dim * 2 <= usize::MAX,
        ensures
            r.kind@ == "F16"@,
            r.dim == self.dim,
            r.code_size_bytes == self.dim * 2,
            r.compression_ratio == rabitq::TWO,
            r.trained,
    {
        SQStats {
            kind: "F16".to_owned(),
            dim: self.dim,
            code_size_bytes: self.dim * 2,
            compression_ratio: rabitq::TWO,
            trained: true,
        }
    }
}

/// One byte per component, by an affine map of its own for each.
pub struct Int8Quantizer {
    pub dim: usize,
    /// The width of a step, for each component.
    pub scale: Vec<u32>,
    /// What byte 0 stands for, for each component.
    pub offset: Vec<u32>,
}

/// The least among component `d` of the first `upto` vectors.
pub open spec fn lowest_at(vectors: Seq<Vec<u32>>, d: int, upto: int) -> u32
    decreases upto,
{
    if upto <= 0 {
        rabitq::LARGEST
    } else {
        word::min_of(lowest_at(vectors, d, upto - 1), vectors[upto - 1]@[d])
    }
}

/// The greatest among component `d` of the first `upto` vectors.
pub open spec fn highest_at(vectors: Seq<Vec<u32>>, d: int, upto: int) -> u32
    decreases upto,
{
    if upto <= 0 {
        rabitq::SMALLEST
    } else {
        word::max_of(highest_at(vectors, d, upto - 1), vectors[upto - 1]@[d])
    }
}

/// The squared distance between byte strings: the sum over the first `upto` places.
pub open spec fn byte_gap(a: Seq<u8>, b: Seq<u8>, upto: int) -> int
    decreases upto,
{
    if upto <= 0 {
        0
    } else {
        byte_gap(a, b, upto - 1) + (a[upto - 1] - b[upto - 1]) * (a[upto - 1] - b[upto - 1])
    }
}

/// Calls `numkong::Euclidean::sqeuclidean` on bytes: nothing when the lengths differ, and
/// else the sum of the squared differences, as long as it fits in the narrowest of the
/// signed words that its kernels add in.
#[verifier::external_body]
fn byte_distance(a: &[u8], b: &[u8]) -> (r: Option<u32>)
    ensures
        r is Some <==> a@.len() == b@.len(),
        r is Some && a@.len() <= MAX_RUN ==> r->0 == byte_gap(a@, b@, a@.len() as int),
{
    <u8 as numkong::Euclidean>::sqeuclidean(a, b)
}

/// The sum over the places from `from` on is that of the rest of the strings.
proof fn lemma_gap_of_run(a: Seq<u8>, b: Seq<u8>, from: int, n: int)
    requires
        0 <= from,
        0 <= n,
        from + n <= a.len() == b.len(),
    ensures
        byte_gap(a, b, from + n) == byte_gap(a, b, from) + byte_gap(
            a.subrange(from, from + n),
            b.subrange(from, from + n),
            n,
        ),
    decreases n,
{
    if n > 0 {
        lemma_gap_of_run(a, b, from, n - 1);
        let x = a.subrange(from, from + n);
        let y = b.subrange(from, from + n);
        lemma_gap_of_part(a.subrange(from, from + n - 1), b.subrange(from, from + n - 1), x, y, n - 1);
    }
}

proof fn lemma_gap_of_part(a: Seq<u8>, b: Seq<u8>, x: Seq<u8>, y: Seq<u8>, n: int)
    requires
        n <= a.len(),
        n <= b.len(),
        n <= x.len(),
        n <= y.len(),
        forall|i: int| 0 <= i < n ==> #[trigger] a[i] == x[i],
        forall|i: int| 0 <= i < n ==> #[trigger] b[i] == y[i],
    ensures
        byte_gap(a, b, n) == byte_gap(x, y, n),
    decreases n,
{
    if n > 0 {
        lemma_gap_of_part(a, b, x, y, n - 1);
    }
}

proof fn lemma_gap_bound(a: Seq<u8>, b: Seq<u8>, upto: int)
    requires
        0 <= upto,
    ensures
        0 <= byte_gap(a, b, upto) <= 65025 * upto,
    decreases upto,
{
    if upto > 0 {
        lemma_gap_bound(a, b, upto - 1);
        let x = a[upto - 1] as int;
        let y = b[upto - 1] as int;
        assert(0 <= (x - y) * (x - y) <= 65025) by (nonlinear_arith)
            requires
                0 <= x <= 255,
                0 <= y <= 255,
        ;
    }
}

/// The squared distance between byte strings.
fn byte_square(a: &[u8], b: &[u8]) -> (r: usize)
    requires
        a@.len() == b@.len() <= MAX_BYTE_CODE,
    ensures
        r == byte_gap(a@, b@, a@.len() as int),
{
    let n: usize = a.len();
    let mut sum: usize = 0;
    let mut i: usize = 0;
    while i < n
        invariant
            i <= n == a@.len() == b@.len(),
            n <= MAX_BYTE_CODE,
            sum == byte_gap(a@, b@, i as int),
        decreases n - i,
    {
        let end: usize = if n - i <= MAX_RUN {
            n
        } else {
            i + MAX_RUN
        };
        let x = vstd::slice::slice_subrange(a, i, end);
        let y = vstd::slice::slice_subrange(b, i, end);
        let part: u32 = match byte_distance(x, y) {
            Some(part) => part,
            None => 0,
        };
        proof {
            lemma_gap_of_run(a@, b@, i as int, end - i);
            lemma_gap_bound(a@, b@, end as int);
        }
        sum = sum + part as usize;
        i = end;
    }
    sum
}

impl Int8Quantizer {
    /// There is a step and an offset for each component.
    pub open spec fn is_shaped(&self) -> bool {
        self.scale@.len() == self.dim && self.offset@.len() == self.dim
    }

    pub open spec fn wf(&self) -> bool {
        self.is_shaped() && self.dim <= MAX_BYTE_CODE
    }

    /// Whether the quantizer is well-formed.
    pub fn validate(&self) -> (r: bool)
        ensures
            r == self.wf(),
    {
        self.scale.len() == self.dim && self.offset.len() == self.dim && self.dim <= MAX_BYTE_CODE
    }

    /// The step that training gives for a range of components.
    pub open spec fn scale_for<D: Distance>(dist: D, range: u32) -> u32 {
        if word::less(word::abs_of(range), EPSILON) {
            word::ONE
        } else {
            dist.quotient_spec(range, dist.count_spec(255))
        }
    }

    /// What training on the vectors gives: for each component, byte 0 stands for the least
    /// that the vectors have there, and byte 255 for the greatest.
    pub open spec fn is_trained<D: Distance>(&self, dist: D, vectors: Seq<Vec<u32>>) -> bool {
        let n = vectors.len() as int;
        &&& self.dim == vectors[0]@.len()
        &&& self.is_shaped()
        &&& forall|d: int|
            0 <= d < self.dim ==> #[trigger] self.offset@[d] == lowest_at(vectors, d, n)
        &&& forall|d: int|
            0 <= d < self.dim ==> #[trigger] self.scale@[d] == Self::scale_for(
                dist,
                dist.difference_spec(highest_at(vectors, d, n), lowest_at(vectors, d, n)),
            )
    }

    /// Trains a quantizer.
    pub fn train<D: Distance>(dist: D, vectors: &Vec<Vec<u32>>) -> (r: Result<Self, DiskAnnError>)
        ensures
            match rabitq::training_shape_fault(vectors@) {
                Some(fault) => r is Err && r->Err_0 == DiskAnnError::IndexError(fault),
                None => r is Ok && r->Ok_0.is_trained(dist, vectors@),
            },
    {
        match rabitq::check_training(vectors) {
            Some(fault) => {
                return Err(DiskAnnError::IndexError(fault));
            },
            None => {},
        }
        let dim: usize = vectors[0].len();
        let ghost n = vectors@.len() as int;
        let mut scale: Vec<u32> = Vec::new();
        let mut offset: Vec<u32> = Vec::new();
        let mut d: usize = 0;
        while d < dim
            invariant
                d <= dim,
                n == vectors@.len(),
                kmeans::level(vectors@, dim as int),
                scale@.len() == d,
                offset@.len() == d,
                forall|e: int|
                    0 <= e < d ==> #[trigger] offset@[e] == lowest_at(vectors@, e, n),
                forall|e: int|
                    0 <= e < d ==> #[trigger] scale@[e] == Self::scale_for(
                        dist,
                        dist.difference_spec(
                            highest_at(vectors@, e, n),
                            lowest_at(vectors@, e, n),
                        ),
                    ),
            decreases dim - d,
        {
            let mut lo: u32 = rabitq::LARGEST;
            let mut hi: u32 = rabitq::SMALLEST;
            let mut i: usize = 0;
            while i < vectors.len()
                invariant
                    i <= vectors@.len(),
                    d < dim,
                    kmeans::level(vectors@, dim as int),
                    lo == lowest_at(vectors@, d as int, i as int),
                    hi == highest_at(vectors@, d as int, i as int),
                decreases vectors@.len() - i,
            {
                assert(vectors@[i as int]@.len() == dim);
                let x: u32 = vectors[i][d];
                lo = word::min(lo, x);
                hi = word::max(hi, x);
                i = i + 1;
            }
            let range: u32 = dist.difference(hi, lo);
            let step: u32 = if word::lt(word::abs(range), EPSILON) {
                word::ONE
            } else {
                dist.quotient(range, dist.count(255))
            };
            scale.push(step);
            offset.push(lo);
            d = d + 1;
        }
        Ok(Int8Quantizer { dim, scale, offset })
    }

    /// A quantizer with known parameters, the same for all components.
    pub fn from_params(dim: usize, scale: u32, offset: u32) -> (r: Self)
        ensures
            r.dim == dim,
            r.scale@ == Seq::new(dim as nat, |i: int| scale),
            r.offset@ == Seq::new(dim as nat, |i: int| offset),
            r.is_shaped(),
    {
        let scales: Vec<u32> = repeated(scale, dim);
        let offsets: Vec<u32> = repeated(offset, dim);
        Int8Quantizer { dim, scale: scales, offset: offsets }
    }

    /// The width of a step, for each component.
    pub fn scale(&self) -> (r: &Vec<u32>)
        ensures
            *r == self.scale,
    {
        &self.scale
    }

    /// What byte 0 stands for, for each component.
    pub fn offset(&self) -> (r: &Vec<u32>)
        ensures
            *r == self.offset,
    {
        &self.offset
    }

    pub fn dim(&self) -> (r: usize)
        ensures
            r == self.dim,
    {
        self.dim
    }

    /// The byte for a component under a map.
    pub open spec fn byte_of<D: Distance>(dist: D, x: u32, scale: u32, offset: u32) -> u8 {
        dist.to_bytes_spec(
            seq![x],
            dist.quotient_spec(word::ONE, scale),
            dist.quotient_spec(word::negated(offset), scale),
        )[0]
    }

    /// The code of a vector.
    pub open spec fn code_of<D: Distance>(&self, dist: D, v: Seq<u32>) -> Seq<u8> {
        Seq::new(v.len(), |i: int| Self::byte_of(dist, v[i], self.scale@[i], self.offset@[i]))
    }

    /// The vector that a code stands for.
    pub open spec fn decoded<D: Distance>(&self, dist: D, code: Seq<u8>) -> Seq<u32> {
        Seq::new(
            code.len(),
            |i: int|
                dist.sum_spec(
                    dist.product_spec(dist.count_spec(code[i] as usize), self.scale@[i]),
                    self.offset@[i],
                ),
        )
    }

    /// All components have the same step.
    pub open spec fn is_even(&self) -> bool {
        forall|i: int, j: int|
            0 <= i < self.scale@.len() && 0 <= j < self.scale@.len() ==> #[trigger] self.scale@[i]
                == #[trigger] self.scale@[j]
    }

    /// A squared difference of bytes in the measure of the vectors.
    pub open spec fn in_measure<D: Distance>(dist: D, square: int, scale: u32) -> u32 {
        dist.product_spec(
            dist.product_spec(dist.count_spec(square as usize), scale),
            scale,
        )
    }

    /// The squared differences of the first `upto` components, added in turn.
    pub open spec fn gap_sum<D: Distance>(
        &self,
        dist: D,
        query: Seq<u8>,
        code: Seq<u8>,
        upto: int,
    ) -> u32
        decreases upto,
    {
        if upto <= 0 {
            word::ZERO
        } else {
            let i = upto - 1;
            let gap = query[i] - code[i];
            dist.sum_spec(
                self.gap_sum(dist, query, code, i),
                Self::in_measure(dist, gap * gap, self.scale@[i]),
            )
        }
    }

    /// The squared distance between a coded query and a code. Where all components have
    /// the same step, the bytes are compared first, and the sum is measured once.
    pub open spec fn scaled_gap<D: Distance>(&self, dist: D, query: Seq<u8>, code: Seq<u8>) -> u32 {
        if self.scale@.len() > 0 && self.is_even() {
            Self::in_measure(dist, byte_gap(query, code, query.len() as int), self.scale@[0])
        } else {
            self.gap_sum(dist, query, code, query.len() as int)
        }
    }

    fn check_even(&self) -> (r: bool)
        ensures
            r == self.is_even(),
    {
        let n: usize = self.scale.len();
        let mut i: usize = 1;
        while i < n
            invariant
                n == self.scale@.len(),
                1 <= i,
                forall|j: int| 0 <= j < i && j < n ==> #[trigger] self.scale@[j] == self.scale@[0],
            decreases n - i,
        {
            if self.scale[i] != self.scale[0] {
                return false;
            }
            i = i + 1;
        }
        true
    }

    /// Codes a vector.
    pub fn encode<D: Distance>(&self, dist: D, vector: &[u32]) -> (r: Vec<u8>)
        requires
            self.is_shaped(),
            vector@.len() == self.dim,
        ensures
            r@ == self.code_of(dist, vector@),
            r@.len() == self.dim,
    {
        let mut r: Vec<u8> = Vec::new();
        let mut i: usize = 0;
        while i < vector.len()
            invariant
                i <= vector@.len() == self.dim,
                self.is_shaped(),
                r@.len() == i,
                forall|j: int|
                    0 <= j < i ==> #[trigger] r@[j] == Self::byte_of(
                        dist,
                        vector@[j],
                        self.scale@[j],
                        self.offset@[j],
                    ),
            decreases vector@.len() - i,
        {
            let scale: u32 = self.scale[i];
            let factor: u32 = dist.quotient(word::ONE, scale);
            let shift: u32 = dist.quotient(word::negate(self.offset[i]), scale);
            let one = vstd::slice::slice_subrange(vector, i, i + 1);
            assert(one@ =~= seq![vector@[i as int]]);
            let coded = dist.to_bytes(one, factor, shift);
            r.push(coded[0]);
            i = i + 1;
        }
        assert(r@ =~= self.code_of(dist, vector@));
        r
    }

    /// The vector that a code stands for.
    pub fn decode<D: Distance>(&self, dist: D, codes: &[u8]) -> (r: Vec<u32>)
        requires
            self.is_shaped(),
            codes@.len() == self.dim,
        ensures
            r@ == self.decoded(dist, codes@),
            r@.len() == self.dim,
    {
        let mut r: Vec<u32> = Vec::new();
        let mut i: usize = 0;
        while i < codes.len()
            invariant
                i <= codes@.len() == self.dim,
                self.is_shaped(),
                r@.len() == i,
                forall|j: int|
                    0 <= j < i ==> #[trigger] r@[j] == dist.sum_spec(
                        dist.product_spec(dist.count_spec(codes@[j] as usize), self.scale@[j]),
                        self.offset@[j],
                    ),
            decreases codes@.len() - i,
        {
            r.push(
                dist.sum(
                    dist.product(dist.count(codes[i] as usize), self.scale[i]),
                    self.offset[i],
                ),
            );
            i = i + 1;
        }
        assert(r@ =~= self.decoded(dist, codes@));
        r
    }

    /// The squared distance between a coded query and a code.
    pub fn distance_u8<D: Distance>(&self, dist: D, query: &[u8], codes: &[u8]) -> (d: u32)
        requires
            self.wf(),
            query@.len() == self.dim,
            codes@.len() == self.dim,
        ensures
            d == self.scaled_gap(dist, query@, codes@),
    {
        if self.scale.len() > 0 && self.check_even() {
            let gap: usize = byte_square(query, codes);
            return dist.product(dist.product(dist.count(gap), self.scale[0]), self.scale[0]);
        }
        let mut sum: u32 = word::ZERO;
        let mut i: usize = 0;
        while i < query.len()
            invariant
                self.is_shaped(),
                i <= query@.len() == codes@.len() == self.dim,
                sum == self.gap_sum(dist, query@, codes@, i as int),
            decreases query@.len() - i,
        {
            let x: u8 = query[i];
            let y: u8 = codes[i];
            let gap: usize = if x < y {
                (y - x) as usize
            } else {
                (x - y) as usize
            };
            proof {
                let a = x as int;
                let b = y as int;
                let g = gap as int;
                assert(0 <= g * g <= 65025 && g * g == (a - b) * (a - b)) by (nonlinear_arith)
                    requires
                        0 <= g <= 255,
                        g == a - b || g == b - a,
                ;
            }
            let scale: u32 = self.scale[i];
            sum = dist.sum(sum, dist.product(dist.product(dist.count(gap * gap), scale), scale));
            i = i + 1;
        }
        sum
    }

    /// The squared distance between a query and a code.
    pub fn asymmetric_distance<D: Distance>(&self, dist: D, query: &[u32], codes: &[u8]) -> (d: u32)
        requires
            self.wf(),
            query@.len() == self.dim,
            codes@.len() == self.dim,
        ensures
            d == self.scaled_gap(dist, self.code_of(dist, query@), codes@),
    {
        let coded = self.encode(dist, query);
        self.distance_u8(dist, coded.as_slice(), codes)
    }

    /// Figures about the quantizer.
    pub fn stats(&self) -> (r: SQStats)
        ensures
            r.kind@ == "Int8"@,
            r.dim == self.dim,
            r.code_size_bytes == self.dim,
            r.compression_ratio == FOUR,
            r.trained,
    {
        SQStats {
            kind: "Int8".to_owned(),
            dim: self.dim,
            code_size_bytes: self.dim,
            compression_ratio: FOUR,
            trained: true,
        }
    }
}

/// A list of `n` times the same word.
fn repeated(word: u32, n: usize) -> (r: Vec<u32>)
    ensures
        r@ == Seq::new(n as nat, |i: int| word),
{
    let mut r: Vec<u32> = Vec::new();
    while r.len() < n
        invariant
            r@.len() <= n,
            forall|i: int| 0 <= i < r@.len() ==> #[trigger] r@[i] == word,
        decreases n - r@.len(),
    {
        r.push(word);
    }
    assert(r@ =~= Seq::new(n as nat, |i: int| word));
    r
}

} // verus!
