//! Product quantization: a vector is cut into pieces, and each piece is coded by the
//! nearest of the centroids trained for its place.
use crate::error::DiskAnnError;
use crate::error::Fault;
use crate::kmeans;
use crate::metric;
use crate::metric::Distance;
use crate::random::choose_some;
use crate::word;
use vstd::prelude::*;

verus! {

/// How a product quantizer is trained.
#[derive(Clone, Copy, Debug)]
pub struct PQConfig {
    /// Pieces that a vector is cut into.
    pub num_subspaces: usize,
    /// Centroids for each piece, at most 256.
    pub num_centroids: usize,
    pub kmeans_iterations: usize,
    /// Vectors to train on; 0 means all.
    pub training_sample_size: usize,
}

impl Default for PQConfig {
    fn default() -> (r: Self)
        ensures
            r.num_subspaces == 8,
            r.num_centroids == 256,
            r.kmeans_iterations == 20,
            r.training_sample_size == 50_000,
    {
        PQConfig {
            num_subspaces: 8,
            num_centroids: 256,
            kmeans_iterations: 20,
            training_sample_size: 50_000,
        }
    }
}

/// A trained product quantizer.
pub struct ProductQuantizer {
    pub dim: usize,
    pub num_subspaces: usize,
    pub num_centroids: usize,
    pub subspace_dim: usize,
    /// The centroids of the first piece, then those of the second, and so on.
    pub codebooks: Vec<u32>,
}

/// Figures about a product quantizer.
#[derive(Clone, Copy, Debug)]
pub struct PQStats {
    pub dim: usize,
    pub num_subspaces: usize,
    pub num_centroids: usize,
    pub subspace_dim: usize,
    pub codebook_size_bytes: usize,
    pub code_size_bytes: usize,
    /// Bytes of a vector over bytes of its code.
    pub compression_ratio: u32,
}

/// Row `i` of a flat table of rows of `width`.
pub open spec fn flat_row(flat: Seq<u32>, i: int, width: int) -> Seq<u32> {
    flat.subrange(i * width, i * width + width)
}

pub proof fn lemma_flat_bounds(i: int, n: int, width: int)
    requires
        0 <= i < n,
        0 <= width,
    ensures
        0 <= i * width,
        i * width + width == (i + 1) * width,
        i * width + width <= n * width,
{
    assert(0 <= i * width && i * width + width == (i + 1) * width && (i + 1) * width <= n * width)
        by (nonlinear_arith)
        requires
            0 <= i < n,
            0 <= width,
    ;
}

impl ProductQuantizer {
    /// The pieces cover the vector, and there is a codebook for each.
    pub open spec fn wf(&self) -> bool {
        &&& self.num_subspaces > 0
        &&& self.num_centroids <= 256
        &&& self.dim == self.num_subspaces * self.subspace_dim
        &&& self.codebooks@.len() == self.num_subspaces * self.num_centroids * self.subspace_dim
        &&& self.num_subspaces * self.num_centroids <= usize::MAX
    }

    /// Piece `m` of a vector.
    pub open spec fn piece(&self, v: Seq<u32>, m: int) -> Seq<u32> {
        flat_row(v, m, self.subspace_dim as int)
    }

    /// Centroid `k` for piece `m`.
    pub open spec fn centroid(&self, m: int, k: int) -> Seq<u32> {
        flat_row(self.codebooks@, m * self.num_centroids + k, self.subspace_dim as int)
    }

    /// The centroids for piece `m`.
    pub open spec fn book(&self, m: int) -> Seq<Seq<u32>> {
        Seq::new(self.num_centroids as nat, |k: int| self.centroid(m, k))
    }

    /// The code of a vector: for each piece the nearest centroid.
    pub open spec fn code_of<D: Distance>(&self, dist: D, v: Seq<u32>) -> Seq<u8> {
        Seq::new(
            self.num_subspaces as nat,
            |m: int|
                kmeans::nearest_centroid(
                    dist,
                    self.piece(v, m),
                    self.book(m),
                    self.num_centroids as int,
                ).0 as u8,
        )
    }

    /// A code that names a centroid for every piece.
    pub open spec fn is_code(&self, code: Seq<u8>) -> bool {
        &&& code.len() == self.num_subspaces
        &&& forall|m: int| 0 <= m < code.len() ==> #[trigger] code[m] < self.num_centroids
    }

    /// The code of a vector names a centroid for every piece.
    pub proof fn lemma_code<D: Distance>(&self, dist: D, v: Seq<u32>)
        requires
            self.wf(),
            self.num_centroids > 0,
        ensures
            self.is_code(self.code_of(dist, v)),
    {
        assert forall|m: int| 0 <= m < self.num_subspaces implies (#[trigger] self.code_of(dist, v)[m])
            < self.num_centroids by {
            kmeans::lemma_nearest_centroid(
                dist,
                self.piece(v, m),
                self.book(m),
                self.num_centroids as int,
            );
        }
    }

    /// The vector that a code stands for: the first `upto` of its centroids.
    pub open spec fn decoded(&self, code: Seq<u8>, upto: int) -> Seq<u32>
        decreases upto,
    {
        if upto <= 0 {
            Seq::empty()
        } else {
            self.decoded(code, upto - 1) + self.centroid(upto - 1, code[upto - 1] as int)
        }
    }

    /// The squared distance of a query from what a code stands for: the sum over the
    /// first `upto` pieces.
    pub open spec fn code_distance<D: Distance>(
        &self,
        dist: D,
        query: Seq<u32>,
        code: Seq<u8>,
        upto: int,
    ) -> u32
        decreases upto,
    {
        if upto <= 0 {
            word::ZERO
        } else {
            dist.sum_spec(
                self.code_distance(dist, query, code, upto - 1),
                dist.square_l2_spec(
                    self.piece(query, upto - 1),
                    self.centroid(upto - 1, code[upto - 1] as int),
                ),
            )
        }
    }

    /// The distances of a query's pieces from all centroids.
    pub open spec fn table_of<D: Distance>(&self, dist: D, query: Seq<u32>) -> Seq<u32> {
        Seq::new(
            (self.num_subspaces * self.num_centroids) as nat,
            |i: int|
                dist.square_l2_spec(
                    self.piece(query, i / (self.num_centroids as int)),
                    self.centroid(
                        i / (self.num_centroids as int),
                        i % (self.num_centroids as int),
                    ),
                ),
        )
    }

    /// The sum of the first `upto` distances that a code picks from a table.
    pub open spec fn table_distance<D: Distance>(
        &self,
        dist: D,
        table: Seq<u32>,
        code: Seq<u8>,
        upto: int,
    ) -> u32
        decreases upto,
    {
        if upto <= 0 {
            word::ZERO
        } else {
            dist.sum_spec(
                self.table_distance(dist, table, code, upto - 1),
                table[(upto - 1) * self.num_centroids + code[upto - 1]],
            )
        }
    }

    pub proof fn lemma_bounds(&self, m: int, k: int)
        requires
            self.wf(),
            0 <= m < self.num_subspaces,
            0 <= k < self.num_centroids,
        ensures
            0 <= m * self.num_centroids,
            0 <= m * self.num_centroids + k < self.num_subspaces * self.num_centroids,
            0 <= (m * self.num_centroids + k) * self.subspace_dim,
            (m * self.num_centroids + k) * self.subspace_dim + self.subspace_dim
                <= self.codebooks@.len(),
            0 <= m * self.subspace_dim,
            m * self.subspace_dim + self.subspace_dim <= self.dim,
            (m * self.num_centroids + k) / (self.num_centroids as int) == m,
            (m * self.num_centroids + k) % (self.num_centroids as int) == k,
    {
        lemma_flat_bounds(m, self.num_subspaces as int, self.num_centroids as int);
        lemma_flat_bounds(
            m * self.num_centroids + k,
            self.num_subspaces * self.num_centroids,
            self.subspace_dim as int,
        );
        lemma_flat_bounds(m, self.num_subspaces as int, self.subspace_dim as int);
        vstd::arithmetic::div_mod::lemma_fundamental_div_mod_converse(
            m * self.num_centroids + k,
            self.num_centroids as int,
            m,
            k,
        );
    }

    /// Whether the quantizer is well-formed.
    pub fn validate(&self) -> (r: bool)
        ensures
            r == self.wf(),
    {
        let have: usize = self.codebooks.len();
        if self.num_subspaces == 0 || self.num_centroids > 256 {
            return false;
        }
        let whole: usize = match self.num_subspaces.checked_mul(self.subspace_dim) {
            Some(whole) => whole,
            None => {
                return false;
            },
        };
        let rows: usize = match self.num_subspaces.checked_mul(self.num_centroids) {
            Some(rows) => rows,
            None => {
                return false;
            },
        };
        let size: usize = match rows.checked_mul(self.subspace_dim) {
            Some(size) => size,
            None => {
                return false;
            },
        };
        self.dim == whole && have == size
    }

    fn get_centroid(&self, m: usize, k: usize) -> (r: &[u32])
        requires
            self.wf(),
            m < self.num_subspaces,
            k < self.num_centroids,
        ensures
            r@ == self.centroid(m as int, k as int),
            r@.len() == self.subspace_dim,
    {
        proof {
            self.lemma_bounds(m as int, k as int);
        }
        let size: usize = self.codebooks.len();
        assert((m * self.num_centroids + k) * self.subspace_dim + self.subspace_dim <= size);
        let offset: usize = (m * self.num_centroids + k) * self.subspace_dim;
        vstd::slice::slice_subrange(self.codebooks.as_slice(), offset, offset + self.subspace_dim)
    }

    fn get_piece<'a>(&self, v: &'a [u32], m: usize) -> (r: &'a [u32])
        requires
            self.wf(),
            v@.len() == self.dim,
            m < self.num_subspaces,
        ensures
            r@ == self.piece(v@, m as int),
            r@.len() == self.subspace_dim,
    {
        proof {
            lemma_flat_bounds(m as int, self.num_subspaces as int, self.subspace_dim as int);
        }
        let start: usize = m * self.subspace_dim;
        vstd::slice::slice_subrange(v, start, start + self.subspace_dim)
    }

    /// The code of a vector.
    pub fn encode<D: Distance>(&self, dist: D, vector: &[u32]) -> (r: Vec<u8>)
        requires
            self.wf(),
            vector@.len() == self.dim,
        ensures
            r@ == self.code_of(dist, vector@),
            self.num_centroids > 0 ==> self.is_code(r@),
    {
        let mut codes: Vec<u8> = Vec::new();
        let mut m: usize = 0;
        while m < self.num_subspaces
            invariant
                m <= self.num_subspaces,
                self.wf(),
                vector@.len() == self.dim,
                codes@.len() == m,
                forall|i: int|
                    0 <= i < m ==> #[trigger] codes@[i] == self.code_of(dist, vector@)[i],
                self.num_centroids > 0 ==> forall|i: int|
                    0 <= i < m ==> #[trigger] codes@[i] < self.num_centroids,
            decreases self.num_subspaces - m,
        {
            let sub = self.get_piece(vector, m);
            let ghost book = self.book(m as int);
            let mut best: usize = 0;
            let mut best_dist: u32 = kmeans::FARTHEST;
            let mut k: usize = 0;
            while k < self.num_centroids
                invariant
                    k <= self.num_centroids,
                    self.wf(),
                    m < self.num_subspaces,
                    sub@.len() == self.subspace_dim,
                    sub@ == self.piece(vector@, m as int),
                    book == self.book(m as int),
                    (best as int, best_dist) == kmeans::nearest_centroid(
                        dist,
                        sub@,
                        book,
                        k as int,
                    ),
                    best == 0 || best < k,
                decreases self.num_centroids - k,
            {
                let c = self.get_centroid(m, k);
                assert(book[k as int] == c@);
                let d: u32 = dist.square_l2(sub, c);
                if word::lt(d, best_dist) {
                    best = k;
                    best_dist = d;
                }
                k = k + 1;
            }
            codes.push(best as u8);
            m = m + 1;
        }
        assert(codes@ =~= self.code_of(dist, vector@));
        codes
    }

    /// The codes of vectors.
    pub fn encode_batch<D: Distance>(&self, dist: D, vectors: &Vec<Vec<u32>>) -> (r: Vec<Vec<u8>>)
        requires
            self.wf(),
            kmeans::level(vectors@, self.dim as int),
        ensures
            r@.len() == vectors@.len(),
            forall|i: int|
                0 <= i < r@.len() ==> (#[trigger] r@[i])@ == self.code_of(dist, vectors@[i]@),
    {
        let mut r: Vec<Vec<u8>> = Vec::new();
        let mut i: usize = 0;
        while i < vectors.len()
            invariant
                i <= vectors@.len(),
                self.wf(),
                kmeans::level(vectors@, self.dim as int),
                r@.len() == i,
                forall|j: int|
                    0 <= j < i ==> (#[trigger] r@[j])@ == self.code_of(dist, vectors@[j]@),
            decreases vectors@.len() - i,
        {
            assert(vectors@[i as int]@.len() == self.dim);
            r.push(self.encode(dist, vectors[i].as_slice()));
            i = i + 1;
        }
        r
    }

    /// The squared distance of a query from what a code stands for.
    pub fn asymmetric_distance<D: Distance>(&self, dist: D, query: &[u32], codes: &[u8]) -> (d: u32)
        requires
            self.wf(),
            query@.len() == self.dim,
            self.is_code(codes@),
        ensures
            d == self.code_distance(dist, query@, codes@, self.num_subspaces as int),
    {
        let mut total: u32 = word::ZERO;
        let mut m: usize = 0;
        while m < self.num_subspaces
            invariant
                m <= self.num_subspaces,
                self.wf(),
                query@.len() == self.dim,
                self.is_code(codes@),
                total == self.code_distance(dist, query@, codes@, m as int),
            decreases self.num_subspaces - m,
        {
            assert(codes@[m as int] < self.num_centroids);
            let sub = self.get_piece(query, m);
            let c = self.get_centroid(m, codes[m] as usize);
            total = dist.sum(total, dist.square_l2(sub, c));
            m = m + 1;
        }
        total
    }

    /// The distances of a query's pieces from all centroids.
    pub fn create_distance_table<D: Distance>(&self, dist: D, query: &[u32]) -> (table: Vec<u32>)
        requires
            self.wf(),
            query@.len() == self.dim,
        ensures
            table@ == self.table_of(dist, query@),
    {
        let mut table: Vec<u32> = Vec::new();
        let mut m: usize = 0;
        assert(0 * self.num_centroids == 0) by (nonlinear_arith);
        while m < self.num_subspaces
            invariant
                m <= self.num_subspaces,
                self.wf(),
                query@.len() == self.dim,
                table@.len() == m * self.num_centroids,
                table@.len() <= self.num_subspaces * self.num_centroids,
                forall|i: int|
                    0 <= i < table@.len() ==> #[trigger] table@[i] == self.table_of(
                        dist,
                        query@,
                    )[i],
            decreases self.num_subspaces - m,
        {
            let sub = self.get_piece(query, m);
            let mut k: usize = 0;
            proof {
                lemma_flat_bounds(m as int, self.num_subspaces as int, self.num_centroids as int);
            }
            while k < self.num_centroids
                invariant
                    k <= self.num_centroids,
                    self.wf(),
                    m < self.num_subspaces,
                    sub@.len() == self.subspace_dim,
                    sub@ == self.piece(query@, m as int),
                    table@.len() == m * self.num_centroids + k,
                    forall|i: int|
                        0 <= i < table@.len() ==> #[trigger] table@[i] == self.table_of(
                            dist,
                            query@,
                        )[i],
                decreases self.num_centroids - k,
            {
                proof {
                    self.lemma_bounds(m as int, k as int);
                }
                let c = self.get_centroid(m, k);
                table.push(dist.square_l2(sub, c));
                k = k + 1;
            }
            m = m + 1;
        }
        assert(table@ =~= self.table_of(dist, query@));
        table
    }

    /// The distance that a code picks from a query's table.
    pub fn distance_with_table<D: Distance>(&self, dist: D, table: &[u32], codes: &[u8]) -> (d: u32)
        requires
            self.wf(),
            self.is_code(codes@),
            table@.len() == self.num_subspaces * self.num_centroids,
        ensures
            d == self.table_distance(dist, table@, codes@, self.num_subspaces as int),
    {
        let mut total: u32 = word::ZERO;
        let mut m: usize = 0;
        while m < codes.len()
            invariant
                m <= codes@.len() == self.num_subspaces,
                self.wf(),
                self.is_code(codes@),
                table@.len() == self.num_subspaces * self.num_centroids,
                total == self.table_distance(dist, table@, codes@, m as int),
            decreases codes@.len() - m,
        {
            proof {
                assert(codes@[m as int] < self.num_centroids);
                self.lemma_bounds(m as int, codes@[m as int] as int);
            }
            total = dist.sum(total, table[m * self.num_centroids + codes[m] as usize]);
            m = m + 1;
        }
        total
    }

    /// The vector that a code stands for.
    pub fn decode(&self, codes: &[u8]) -> (r: Vec<u32>)
        requires
            self.wf(),
            self.is_code(codes@),
        ensures
            r@ == self.decoded(codes@, self.num_subspaces as int),
            r@.len() == self.dim,
    {
        let mut r: Vec<u32> = Vec::new();
        let mut m: usize = 0;
        assert(0 * self.subspace_dim == 0) by (nonlinear_arith);
        while m < codes.len()
            invariant
                m <= codes@.len() == self.num_subspaces,
                self.wf(),
                self.is_code(codes@),
                r@ == self.decoded(codes@, m as int),
                r@.len() == m * self.subspace_dim,
            decreases codes@.len() - m,
        {
            assert(codes@[m as int] < self.num_centroids);
            proof {
                lemma_flat_bounds(m as int, self.num_subspaces as int, self.subspace_dim as int);
            }
            let c = self.get_centroid(m, codes[m] as usize);
            push_all(&mut r, c);
            m = m + 1;
        }
        r
    }

    /// Figures about the quantizer.
    pub fn stats<D: Distance>(&self, dist: D) -> (r: PQStats)
        requires
            self.dim * 4 <= usize::MAX,
            self.codebooks@.len() * 4 <= usize::MAX,
        ensures
            r.dim == self.dim,
            r.num_subspaces == self.num_subspaces,
            r.num_centroids == self.num_centroids,
            r.subspace_dim == self.subspace_dim,
            r.codebook_size_bytes == self.codebooks@.len() * 4,
            r.code_size_bytes == self.num_subspaces,
            r.compression_ratio == dist.quotient_spec(
                dist.count_spec((self.dim * 4) as usize),
                dist.count_spec(self.num_subspaces),
            ),
    {
        PQStats {
            dim: self.dim,
            num_subspaces: self.num_subspaces,
            num_centroids: self.num_centroids,
            subspace_dim: self.subspace_dim,
            codebook_size_bytes: self.codebooks.len() * 4,
            code_size_bytes: self.num_subspaces,
            compression_ratio: dist.quotient(
                dist.count(self.dim * 4),
                dist.count(self.num_subspaces),
            ),
        }
    }
}

/// Appends numbers.
pub fn push_all(out: &mut Vec<u32>, part: &[u32])
    ensures
        final(out)@ == old(out)@ + part@,
{
    let ghost start = out@;
    let mut i: usize = 0;
    assert(out@ =~= start + part@.take(0));
    while i < part.len()
        invariant
            i <= part@.len(),
            out@ == start + part@.take(i as int),
        decreases part@.len() - i,
    {
        out.push(part[i]);
        i = i + 1;
        assert(out@ =~= start + part@.take(i as int));
    }
    assert(part@.take(part@.len() as int) =~= part@);
}

/// The distance that a code picks from a query's table is its distance from the query.
pub proof fn table_gives_distance<D: Distance>(
    pq: &ProductQuantizer,
    dist: D,
    query: Seq<u32>,
    code: Seq<u8>,
    upto: int,
)
    requires
        pq.wf(),
        pq.is_code(code),
        0 <= upto <= pq.num_subspaces,
    ensures
        pq.table_distance(dist, pq.table_of(dist, query), code, upto) == pq.code_distance(
            dist,
            query,
            code,
            upto,
        ),
    decreases upto,
{
    if upto > 0 {
        table_gives_distance(pq, dist, query, code, upto - 1);
        assert(code[upto - 1] < pq.num_centroids);
        pq.lemma_bounds(upto - 1, code[upto - 1] as int);
    }
}

/// What makes vectors or parameters unfit for training.
pub open spec fn training_fault(vectors: Seq<Vec<u32>>, config: PQConfig) -> Option<Fault> {
    if vectors.len() == 0 {
        Some(Fault::NothingToTrainOn)
    } else if config.num_centroids > 256 {
        Some(Fault::TooManyCentroids { num_centroids: config.num_centroids })
    } else if vectors[0]@.len() % (config.num_subspaces as nat) != 0 {
        Some(
            Fault::NotDivisible {
                dim: vectors[0]@.len() as usize,
                num_subspaces: config.num_subspaces,
            },
        )
    } else {
        None
    }
}

/// There are pieces to cut vectors into, and where training takes place, centroids to
/// find, and codebooks that machine words can count.
pub open spec fn can_count(vectors: Seq<Vec<u32>>, config: PQConfig) -> bool {
    &&& vectors.len() > 0 && config.num_centroids <= 256 ==> config.num_subspaces > 0
    &&& training_fault(vectors, config) is None ==> config.num_centroids > 0
        && config.num_subspaces * config.num_centroids <= usize::MAX
}

/// Where training takes place, no vector is shorter than the first.
pub open spec fn can_cut(vectors: Seq<Vec<u32>>, config: PQConfig) -> bool {
    training_fault(vectors, config) is None ==> forall|i: int|
        0 <= i < vectors.len() ==> (#[trigger] vectors[i])@.len() >= vectors[0]@.len()
}

/// The positions of the vectors that training looks at: all of them, or a sample of the
/// size asked for.
pub open spec fn is_sample(sample: Seq<usize>, n: int, size: int) -> bool {
    &&& sample.no_duplicates()
    &&& forall|i: int| 0 <= i < sample.len() ==> #[trigger] sample[i] < n
    &&& sample.len() == if size > 0 && n > size {
        size
    } else {
        n
    }
}

/// Piece `m` of each vector of a sample.
pub open spec fn pieces(
    vectors: Seq<Vec<u32>>,
    sample: Seq<usize>,
    m: int,
    width: int,
) -> Seq<Seq<u32>> {
    Seq::new(sample.len(), |i: int| flat_row(vectors[sample[i] as int]@, m, width))
}

/// A quantizer trained on a sample: the centroids for each piece cluster that piece of
/// the sample's vectors.
pub open spec fn is_trained<D: Distance>(
    pq: &ProductQuantizer,
    dist: D,
    vectors: Seq<Vec<u32>>,
    config: PQConfig,
    sample: Seq<usize>,
) -> bool {
    &&& pq.wf()
    &&& pq.dim == vectors[0]@.len()
    &&& pq.num_subspaces == config.num_subspaces
    &&& pq.num_centroids == config.num_centroids
    &&& is_sample(sample, vectors.len() as int, config.training_sample_size as int)
    &&& forall|m: int|
        0 <= m < pq.num_subspaces ==> kmeans::clusters(
                dist,
                pieces(vectors, sample, m, pq.subspace_dim as int),
                config.num_centroids as int,
                config.kmeans_iterations as int,
                #[trigger] pq.book(m),
            )
}

/// The positions to train on.
fn sample_positions(n: usize, size: usize) -> (r: Vec<usize>)
    ensures
        is_sample(r@, n as int, size as int),
{
    let mut all: Vec<usize> = Vec::new();
    let mut i: usize = 0;
    while i < n
        invariant
            i <= n,
            all@.len() == i,
            forall|p: int| 0 <= p < i ==> #[trigger] all@[p] == p,
        decreases n - i,
    {
        all.push(i);
        i = i + 1;
    }
    assert(all@.no_duplicates());
    if size > 0 && n > size {
        let r = choose_some(&all, size);
        proof {
            assert forall|i: int| 0 <= i < r@.len() implies #[trigger] r@[i] < n by {
                assert(all@.contains(r@[i]));
            }
        }
        r
    } else {
        all
    }
}

fn cut<D: Distance>(
    dist: D,
    vectors: &Vec<Vec<u32>>,
    sample: &Vec<usize>,
    m: usize,
    width: usize,
) -> (r: Vec<Vec<u32>>)
    requires
        forall|i: int| 0 <= i < sample@.len() ==> #[trigger] sample@[i] < vectors@.len(),
        forall|i: int|
            0 <= i < vectors@.len() ==> (#[trigger] vectors@[i])@.len() >= m * width + width,
    ensures
        r@.len() == sample@.len(),
        metric::rows(r@) == pieces(vectors@, sample@, m as int, width as int),
        kmeans::level(r@, width as int),
{
    let mut r: Vec<Vec<u32>> = Vec::new();
    let mut i: usize = 0;
    assert(0 <= m * width) by (nonlinear_arith);
    while i < sample.len()
        invariant
            i <= sample@.len(),
            0 <= m * width,
            forall|i: int| 0 <= i < sample@.len() ==> #[trigger] sample@[i] < vectors@.len(),
            forall|i: int|
                0 <= i < vectors@.len() ==> (#[trigger] vectors@[i])@.len() >= m * width + width,
            r@.len() == i,
            forall|j: int|
                0 <= j < i ==> (#[trigger] r@[j])@ == flat_row(
                    vectors@[sample@[j] as int]@,
                    m as int,
                    width as int,
                ),
        decreases sample@.len() - i,
    {
        assert(sample@[i as int] < vectors@.len());
        let v = &vectors[sample[i]];
        let len: usize = v.len();
        assert(vectors@[sample@[i as int] as int]@.len() >= m * width + width);
        let start: usize = m * width;
        let part = vstd::slice::slice_subrange(v.as_slice(), start, start + width);
        let mut copy: Vec<u32> = Vec::new();
        push_all(&mut copy, part);
        assert(copy@ =~= part@);
        r.push(copy);
        i = i + 1;
    }
    proof {
        assert(metric::rows(r@) =~= pieces(vectors@, sample@, m as int, width as int)) by {
            assert forall|j: int| 0 <= j < r@.len() implies metric::rows(r@)[j] == pieces(
                vectors@,
                sample@,
                m as int,
                width as int,
            )[j] by {
                assert(r@[j]@ == metric::rows(r@)[j]);
            }
        }
        assert forall|j: int| 0 <= j < r@.len() implies (#[trigger] r@[j])@.len() == width by {
            assert(sample@[j] < vectors@.len());
            assert(vectors@[sample@[j] as int]@.len() >= m * width + width);
        }
    }
    r
}

/// Appends rows to a flat table of `before` rows.
fn push_rows(
    flat: &mut Vec<u32>,
    rows: &Vec<Vec<u32>>,
    width: usize,
    Ghost(before): Ghost<int>,
)
    requires
        kmeans::level(rows@, width as int),
        0 <= before,
        old(flat)@.len() == before * width,
    ensures
        final(flat)@.len() == (before + rows@.len()) * width,
        forall|i: int|
            0 <= i < before ==> #[trigger] flat_row(final(flat)@, i, width as int) == flat_row(
                old(flat)@,
                i,
                width as int,
            ),
        forall|i: int|
            0 <= i < rows@.len() ==> flat_row(final(flat)@, before + i, width as int)
                == (#[trigger] rows@[i])@,
{
    let ghost start = flat@;
    let mut r: usize = 0;
    while r < rows.len()
        invariant
            r <= rows@.len(),
            0 <= before,
            kmeans::level(rows@, width as int),
            start.len() == before * width,
            flat@.len() == (before + r) * width,
            start.len() <= flat@.len(),
            flat@.take(start.len() as int) == start,
            forall|i: int|
                0 <= i < r ==> flat_row(flat@, before + i, width as int) == (#[trigger] rows@[i])@,
        decreases rows@.len() - r,
    {
        let ghost old_flat = flat@;
        assert(rows@[r as int]@.len() == width);
        push_all(flat, rows[r].as_slice());
        proof {
            let w = width as int;
            lemma_flat_bounds(before + r, before + r + 1, w);
            assert(flat@.take(start.len() as int) =~= old_flat.take(start.len() as int));
            assert forall|i: int| 0 <= i < r + 1 implies flat_row(flat@, before + i, w)
                == (#[trigger] rows@[i])@ by {
                lemma_flat_bounds(before + i, before + r + 1, w);
                if i < r {
                    lemma_flat_bounds(before + i, before + r, w);
                    assert(flat_row(flat@, before + i, w) =~= flat_row(old_flat, before + i, w));
                } else {
                    assert(flat_row(flat@, before + i, w) =~= rows@[i]@);
                }
            }
        }
        r = r + 1;
    }
    proof {
        let w = width as int;
        assert forall|i: int| 0 <= i < before implies #[trigger] flat_row(flat@, i, w) == flat_row(
            start,
            i,
            w,
        ) by {
            lemma_flat_bounds(i, before, w);
            assert(flat_row(flat@, i, w) =~= flat_row(flat@.take(start.len() as int), i, w));
        }
    }
}

impl ProductQuantizer {
    /// Trains a quantizer on vectors.
    #[verifier::rlimit(40)]
    pub fn train<D: Distance>(dist: D, vectors: &Vec<Vec<u32>>, config: PQConfig) -> (r: Result<
        Self,
        DiskAnnError,
    >)
        requires
            can_count(vectors@, config),
            can_cut(vectors@, config),
        ensures
            match training_fault(vectors@, config) {
                Some(fault) => r is Err && r->Err_0 == DiskAnnError::IndexError(fault),
                None => r is Ok && exists|sample: Seq<usize>| #[trigger]
                    is_trained(&r->Ok_0, dist, vectors@, config, sample) && sample.no_duplicates()
                        && sample.len() == if 0 < config.training_sample_size < vectors@.len() {
                        config.training_sample_size as int
                    } else {
                        vectors@.len() as int
                    },
            },
    {
        if vectors.len() == 0 {
            return Err(DiskAnnError::IndexError(Fault::NothingToTrainOn));
        }
        let dim: usize = vectors[0].len();
        if config.num_centroids > 256 {
            return Err(
                DiskAnnError::IndexError(
                    Fault::TooManyCentroids { num_centroids: config.num_centroids },
                ),
            );
        }
        if dim % config.num_subspaces != 0 {
            return Err(
                DiskAnnError::IndexError(
                    Fault::NotDivisible { dim, num_subspaces: config.num_subspaces },
                ),
            );
        }
        let width: usize = dim / config.num_subspaces;
        let pieces_n: usize = config.num_subspaces;
        let k: usize = config.num_centroids;
        proof {
            vstd::arithmetic::div_mod::lemma_fundamental_div_mod(dim as int, pieces_n as int);
            assert(pieces_n * width == dim);
        }
        let sample = sample_positions(vectors.len(), config.training_sample_size);
        let mut codebooks: Vec<u32> = Vec::new();
        let ghost mut books: Seq<Seq<Seq<u32>>> = Seq::empty();
        let mut m: usize = 0;
        assert(0 * k == 0 && (0 * k) * width == 0) by (nonlinear_arith);
        while m < pieces_n
            invariant
                m <= pieces_n,
                pieces_n * width == dim,
                k > 0,
                vectors@.len() > 0,
                dim == vectors@[0]@.len(),
                forall|i: int|
                    0 <= i < vectors@.len() ==> (#[trigger] vectors@[i])@.len()
                        >= vectors@[0]@.len(),
                is_sample(
                    sample@,
                    vectors@.len() as int,
                    config.training_sample_size as int,
                ),
                k == config.num_centroids,
                codebooks@.len() == (m * k) * width,
                books.len() == m,
                forall|q: int| 0 <= q < m ==> (#[trigger] books[q]).len() == k,
                forall|q: int|
                    0 <= q < m ==> kmeans::clusters(
                            dist,
                            pieces(vectors@, sample@, q, width as int),
                            k as int,
                            config.kmeans_iterations as int,
                            #[trigger] books[q],
                        ),
                forall|q: int, c: int|
                    0 <= q < m && 0 <= c < k ==> flat_row(
                        codebooks@,
                        q * k + c,
                        width as int,
                    ) == #[trigger] books[q][c],
            decreases pieces_n - m,
        {
            proof {
                lemma_flat_bounds(m as int, pieces_n as int, width as int);
                assert forall|i: int| 0 <= i < vectors@.len() implies (#[trigger] vectors@[i])@.len()
                    >= m * width + width by {}
            }
            let table = cut(dist, vectors, &sample, m, width);
            assert(table@[0]@.len() == width);
            let found = kmeans::kmeans(dist, &table, k, config.kmeans_iterations);
            let ghost old_codebooks = codebooks@;
            let ghost old_books = books;
            push_rows(&mut codebooks, &found, width, Ghost(m * k));
            proof {
                books = old_books.push(metric::rows(found@));
                let w = width as int;
                assert((m * k + k) * width == ((m + 1) * k) * width) by (nonlinear_arith);
                assert forall|q: int, c: int| 0 <= q < m + 1 && 0 <= c < k implies flat_row(
                    codebooks@,
                    q * k + c,
                    w,
                ) == #[trigger] books[q][c] by {
                    if q < m {
                        lemma_flat_bounds(q, m as int, k as int);
                        assert(books[q] == old_books[q]);
                        assert(flat_row(old_codebooks, q * k + c, w) == old_books[q][c]);
                    } else {
                        assert(found@[c]@ == books[q][c]);
                    }
                }
                assert forall|q: int| 0 <= q < m + 1 implies kmeans::clusters(
                        dist,
                        pieces(vectors@, sample@, q, w),
                        k as int,
                        config.kmeans_iterations as int,
                        #[trigger] books[q],
                    ) by {
                    if q < m {
                        assert(books[q] == old_books[q]);
                    }
                }
            }
            m = m + 1;
        }
        let r = ProductQuantizer {
            dim,
            num_subspaces: pieces_n,
            num_centroids: k,
            subspace_dim: width,
            codebooks,
        };
        proof {
            assert forall|q: int| 0 <= q < pieces_n implies kmeans::clusters(
                    dist,
                    pieces(vectors@, sample@, q, width as int),
                    k as int,
                    config.kmeans_iterations as int,
                    #[trigger] r.book(q),
                ) by {
                assert(r.book(q) =~= books[q]) by {
                    assert forall|c: int| 0 <= c < k implies r.book(q)[c] == books[q][c] by {
                        assert(flat_row(r.codebooks@, q * k + c, width as int) == books[q][c]);
                    }
                }
            }
            assert(is_trained(&r, dist, vectors@, config, sample@));
        }
        let out: Result<Self, DiskAnnError> = Ok(r);
        assert(is_trained(&out->Ok_0, dist, vectors@, config, sample@));
        assert(training_fault(vectors@, config) is None);
        out
    }
}

/// For each piece of a vector the code names a nearest centroid: none whose distance is
/// below the largest number is nearer.
pub proof fn code_names_nearest_centroids<D: Distance>(
    q: &ProductQuantizer,
    dist: D,
    v: Seq<u32>,
    m: int,
    c: int,
)
    requires
        q.wf(),
        0 <= m < q.num_subspaces,
        0 <= c < q.num_centroids,
        word::less(dist.square_l2_spec(q.piece(v, m), q.centroid(m, c)), kmeans::FARTHEST),
    ensures
        !word::less(
            dist.square_l2_spec(q.piece(v, m), q.centroid(m, c)),
            dist.square_l2_spec(q.piece(v, m), q.centroid(m, q.code_of(dist, v)[m] as int)),
        ),
{
    let n = q.num_centroids as int;
    let x = q.piece(v, m);
    kmeans::lemma_nearest_centroid(dist, x, q.book(m), n);
    kmeans::lemma_nothing_nearer(dist, x, q.book(m), n, c);
    let best = kmeans::nearest_centroid(dist, x, q.book(m), n);
    assert(q.code_of(dist, v)[m] == best.0 as u8);
    assert(best.0 < 256);
    assert(q.book(m)[c] == q.centroid(m, c));
    assert(q.book(m)[best.0] == q.centroid(m, best.0));
}

/// Training looks at as many different vectors as were asked for, where there are more
/// and some were asked for, and else at all of them.
pub proof fn training_looks_at_the_sample<D: Distance>(
    q: &ProductQuantizer,
    dist: D,
    vectors: Seq<Vec<u32>>,
    config: PQConfig,
    sample: Seq<usize>,
)
    requires
        is_trained(q, dist, vectors, config, sample),
    ensures
        forall|i: int, j: int|
            0 <= i < j < sample.len() ==> (#[trigger] sample[i]) != (#[trigger] sample[j]),
        forall|i: int| 0 <= i < sample.len() ==> (#[trigger] sample[i]) < vectors.len(),
        0 < config.training_sample_size < vectors.len() ==> sample.len()
            == config.training_sample_size,
        config.training_sample_size == 0 || config.training_sample_size >= vectors.len()
            ==> sample.len() == vectors.len(),
{
}

} // verus!
