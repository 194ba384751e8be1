//! One bit per dimension: a vector is centred, rotated, and coded by the signs of what
//! comes out, with two numbers from which distances are estimated.
use crate::bits;
use crate::bytes;
use crate::error::DiskAnnError;
use crate::error::Fault;
use crate::metric;
use crate::metric::Distance;
use crate::random;
use crate::rotation;
use crate::word;
use vstd::prelude::*;

verus! {

/// Rounds of signs and transform that make a rotation.
pub const ROUNDS: usize = 3;

/// The seed of the signs.
pub const SIGN_SEED: u64 = 0x7_ab17;

/// The pattern of 1.9, the factor of the error bound.
pub const EPS0: u32 = 0x3ff3_3333;

/// The pattern of 2.0.
pub const TWO: u32 = 0x4000_0000;

/// The largest finite number.
pub const LARGEST: u32 = 0x7f7f_ffff;

/// The smallest finite number.
pub const SMALLEST: u32 = 0xff7f_ffff;

/// The highest of the levels that a query's entries are rounded to.
pub const TOP_LEVEL: u32 = 15;

/// Lengths beyond this are not coded.
pub const MAX_PADDED: usize = 0x1000_0000;

/// A trained quantizer.
pub struct RaBitQ {
    pub dim: usize,
    /// The length of a rotated vector: a power of two, at least 64.
    pub padded: usize,
    pub centroid: Vec<u32>,
    /// `ROUNDS` rows of signs, scaled so that a round keeps lengths.
    pub signs: Vec<u32>,
}

/// A query, prepared for estimating its distances from codes.
pub struct RaBitQQuery {
    /// Plane `j` holds bit `j` of the level of every entry.
    pub planes: Vec<u64>,
    /// Words in each plane.
    pub words: usize,
    pub nq2: u32,
    pub s: u32,
    pub k1: u32,
    pub k2: u32,
    pub k3: u32,
}

/// The least power of two that is at least 64 and `dim`, from `p` on.
pub open spec fn padded_from(p: int, dim: int) -> int
    decreases
            if p < dim {
                dim - p
            } else {
                0
            },
{
    if p <= 0 || p >= dim {
        p
    } else {
        padded_from(2 * p, dim)
    }
}

/// The length of the rotated vectors for `dim` components.
pub open spec fn padded_for(dim: int) -> int {
    padded_from(64, dim)
}

fn padded_length(dim: usize) -> (p: usize)
    requires
        dim <= MAX_PADDED,
    ensures
        p == padded_for(dim as int),
        64 <= p <= MAX_PADDED,
        dim <= p,
        rotation::is_pow2(p as int),
{
    let mut p: usize = 64;
    let ghost mut q: int = 0x40_0000;
    assert(rotation::is_pow2(64) && rotation::is_pow2(0x40_0000)) by {
        reveal_with_fuel(rotation::is_pow2, 24);
    }
    while p < dim
        invariant
            64 <= p <= MAX_PADDED,
            dim <= MAX_PADDED,
            q > 0,
            p * q == MAX_PADDED,
            rotation::is_pow2(q),
            rotation::is_pow2(p as int),
            padded_from(64, dim as int) == padded_from(p as int, dim as int),
        decreases
                if p < dim {
                    dim - p
                } else {
                    0
                },
    {
        proof {
            assert(q > 1) by (nonlinear_arith)
                requires
                    p * q == MAX_PADDED,
                    p < MAX_PADDED,
                    q > 0,
            ;
            let half = q / 2;
            assert(2 * half == q);
            assert((2 * p) * half == MAX_PADDED) by (nonlinear_arith)
                requires
                    p * q == MAX_PADDED,
                    2 * half == q,
            ;
            assert(2 * p <= MAX_PADDED) by (nonlinear_arith)
                requires
                    (2 * p) * half == MAX_PADDED,
                    half >= 1,
            ;
            q = half;
        }
        p = 2 * p;
    }
    p
}

/// Whether a number is a power of two.
fn pow2(n: usize) -> (r: bool)
    requires
        n > 0,
    ensures
        r == rotation::is_pow2(n as int),
{
    let mut p: usize = n;
    while p > 1 && p % 2 == 0
        invariant
            p > 0,
            rotation::is_pow2(n as int) == rotation::is_pow2(p as int),
        decreases p,
    {
        p = p / 2;
    }
    p == 1
}

impl RaBitQ {
    pub open spec fn wf(&self) -> bool {
        &&& rotation::is_pow2(self.padded as int)
        &&& 64 <= self.padded <= MAX_PADDED
        &&& self.dim <= self.padded
        &&& self.centroid@.len() == self.dim
        &&& self.signs@.len() == ROUNDS * self.padded
    }

    /// Whether the quantizer is well-formed.
    pub fn validate(&self) -> (r: bool)
        ensures
            r == self.wf(),
    {
        if self.padded < 64 || self.padded > MAX_PADDED {
            return false;
        }
        pow2(self.padded) && self.dim <= self.padded && self.centroid.len() == self.dim
            && self.signs.len() == ROUNDS * self.padded
    }

    /// Bytes of a code: a bit for each entry, and two numbers.
    pub open spec fn code_len(&self) -> int {
        self.padded / 8 + 8
    }
}

/// The sum of the squares of the first `upto` entries, added in turn.
pub open spec fn square_sum<D: Distance>(dist: D, v: Seq<u32>, upto: int) -> u32
    decreases upto,
{
    if upto <= 0 {
        word::ZERO
    } else {
        dist.sum_spec(
            square_sum(dist, v, upto - 1),
            dist.product_spec(v[upto - 1], v[upto - 1]),
        )
    }
}

/// A vector less the centroid, filled up with zeros.
pub open spec fn centred<D: Distance>(
    dist: D,
    v: Seq<u32>,
    centroid: Seq<u32>,
    padded: int,
) -> Seq<u32> {
    Seq::new(
        padded as nat,
        |i: int|
            if i < v.len() {
                dist.difference_spec(v[i], centroid[i])
            } else {
                word::ZERO
            },
    )
}

/// Entries over a norm, unless the norm is nothing to divide by.
pub open spec fn normed<D: Distance>(dist: D, v: Seq<u32>, norm: u32) -> Seq<u32> {
    if word::less(word::ZERO, norm) {
        Seq::new(v.len(), |i: int| dist.quotient_spec(v[i], norm))
    } else {
        v
    }
}

/// The length of a vector.
pub open spec fn norm_of<D: Distance>(dist: D, v: Seq<u32>) -> u32 {
    dist.root_spec(square_sum(dist, v, v.len() as int))
}

impl RaBitQ {
    /// The distance of a vector from the centroid.
    pub open spec fn prepared_norm<D: Distance>(
        &self,
        dist: D,
        v: Seq<u32>,
        centroid: Seq<u32>,
    ) -> u32 {
        norm_of(dist, centred(dist, v, centroid, self.padded as int))
    }

    /// The direction of a vector from the centroid, rotated.
    pub open spec fn prepared<D: Distance>(
        &self,
        dist: D,
        v: Seq<u32>,
        centroid: Seq<u32>,
    ) -> Seq<u32> {
        let c = centred(dist, v, centroid, self.padded as int);
        rotation::rotated(
            dist,
            normed(dist, c, norm_of(dist, c)),
            self.signs@,
            ROUNDS as int,
        )
    }

    fn prep_with<D: Distance>(&self, dist: D, v: &[u32], centroid: &[u32]) -> (r: (Vec<u32>, u32))
        requires
            self.wf(),
            v@.len() == self.dim,
            centroid@.len() == self.dim,
        ensures
            r.0@ == self.prepared(dist, v@, centroid@),
            r.0@.len() == self.padded,
            r.1 == self.prepared_norm(dist, v@, centroid@),
    {
        let mut r: Vec<u32> = Vec::new();
        let mut i: usize = 0;
        while i < self.padded
            invariant
                i <= self.padded,
                self.dim <= self.padded,
                v@.len() == self.dim,
                centroid@.len() == self.dim,
                r@.len() == i,
                forall|p: int|
                    0 <= p < i ==> #[trigger] r@[p] == centred(
                        dist,
                        v@,
                        centroid@,
                        self.padded as int,
                    )[p],
            decreases self.padded - i,
        {
            if i < v.len() {
                r.push(dist.difference(v[i], centroid[i]));
            } else {
                r.push(word::ZERO);
            }
            i = i + 1;
        }
        let ghost c = centred(dist, v@, centroid@, self.padded as int);
        assert(r@ =~= c);
        let mut sum: u32 = word::ZERO;
        let mut i: usize = 0;
        while i < r.len()
            invariant
                i <= r@.len(),
                sum == square_sum(dist, r@, i as int),
            decreases r@.len() - i,
        {
            sum = dist.sum(sum, dist.product(r[i], r[i]));
            i = i + 1;
        }
        let norm: u32 = dist.root(sum);
        if word::lt(word::ZERO, norm) {
            let mut i: usize = 0;
            while i < r.len()
                invariant
                    i <= r@.len(),
                    r@.len() == c.len(),
                    forall|p: int|
                        0 <= p < i ==> #[trigger] r@[p] == dist.quotient_spec(c[p], norm),
                    forall|p: int| i <= p < r@.len() ==> #[trigger] r@[p] == c[p],
                decreases r@.len() - i,
            {
                let x: u32 = r[i];
                r.set(i, dist.quotient(x, norm));
                i = i + 1;
            }
        }
        assert(r@ =~= normed(dist, c, norm));
        rotation::rotate(dist, &mut r, &self.signs, ROUNDS);
        (r, norm)
    }
}

/// Word `q` of the signs of a rotated vector: a bit is set where the entry is positive.
pub open spec fn sign_word(r: Seq<u32>, q: int) -> u64 {
    bits::word_of(|i: int| word::less(word::ZERO, r[64 * q + i]), 64)
}

/// The bytes of the first `upto` words of signs.
pub open spec fn sign_bytes(r: Seq<u32>, upto: int) -> Seq<u8>
    decreases upto,
{
    if upto <= 0 {
        Seq::empty()
    } else {
        sign_bytes(r, upto - 1) + bytes::le64(sign_word(r, upto - 1))
    }
}

/// The sum of the magnitudes of the first `upto` entries, added in turn.
pub open spec fn magnitude_sum<D: Distance>(dist: D, r: Seq<u32>, upto: int) -> u32
    decreases upto,
{
    if upto <= 0 {
        word::ZERO
    } else {
        dist.sum_spec(magnitude_sum(dist, r, upto - 1), word::abs_of(r[upto - 1]))
    }
}

/// The code of a rotated direction and a norm: the signs, the squared norm, and the
/// norm over the share of the direction that the signs keep.
pub open spec fn packed<D: Distance>(dist: D, r: Seq<u32>, norm: u32) -> Seq<u8> {
    let ip = dist.quotient_spec(
        magnitude_sum(dist, r, r.len() as int),
        dist.root_spec(dist.count_spec(r.len() as usize)),
    );
    let fac = if word::less(word::ZERO, ip) {
        dist.quotient_spec(norm, ip)
    } else {
        word::ZERO
    };
    sign_bytes(r, (r.len() / 64) as int) + bytes::le32(dist.product_spec(norm, norm))
        + bytes::le32(fac)
}

pub proof fn lemma_sign_bytes_len(r: Seq<u32>, upto: int)
    requires
        0 <= upto,
    ensures
        sign_bytes(r, upto).len() == 8 * upto,
    decreases upto,
{
    if upto > 0 {
        lemma_sign_bytes_len(r, upto - 1);
        bytes::lemma_le64(sign_word(r, upto - 1));
    }
}

fn make_sign_word(r: &Vec<u32>, q: usize) -> (w: u64)
    requires
        64 * q + 64 <= r@.len(),
    ensures
        w == sign_word(r@, q as int),
{
    let total: usize = r.len();
    let ghost f = |i: int| word::less(word::ZERO, r@[64 * q + i]);
    let mut w: u64 = 0;
    let mut i: usize = 0;
    while i < 64
        invariant
            i <= 64,
            64 * q + 64 <= total == r@.len(),
            f == (|i: int| word::less(word::ZERO, r@[64 * q + i])),
            w == bits::word_of(f, i as int),
        decreases 64 - i,
    {
        if word::lt(word::ZERO, r[64 * q + i]) {
            w = bits::with_bit(w, i as u64);
        }
        i = i + 1;
    }
    assert(f =~= |i: int| word::less(word::ZERO, r@[64 * (q as int) + i]));
    w
}

fn pack<D: Distance>(dist: D, r: &Vec<u32>, norm: u32) -> (code: Vec<u8>)
    requires
        r@.len() % 64 == 0,
    ensures
        code@ == packed(dist, r@, norm),
        code@.len() == r@.len() / 8 + 8,
{
    let n: usize = r.len();
    let words: usize = n / 64;
    let mut code: Vec<u8> = Vec::new();
    let mut q: usize = 0;
    while q < words
        invariant
            q <= words,
            words == n / 64,
            n == r@.len(),
            code@ == sign_bytes(r@, q as int),
        decreases words - q,
    {
        let w: u64 = make_sign_word(r, q);
        bytes::push_u64(&mut code, w);
        q = q + 1;
    }
    let mut sum: u32 = word::ZERO;
    let mut i: usize = 0;
    while i < n
        invariant
            i <= n,
            n == r@.len(),
            sum == magnitude_sum(dist, r@, i as int),
        decreases n - i,
    {
        sum = dist.sum(sum, word::abs(r[i]));
        i = i + 1;
    }
    let ip: u32 = dist.quotient(sum, dist.root(dist.count(n)));
    let fac: u32 = if word::lt(word::ZERO, ip) {
        dist.quotient(norm, ip)
    } else {
        word::ZERO
    };
    let square: u32 = dist.product(norm, norm);
    bytes::push_u32(&mut code, square);
    bytes::push_u32(&mut code, fac);
    proof {
        lemma_sign_bytes_len(r@, words as int);
        bytes::lemma_le32(square);
        bytes::lemma_le32(fac);
    }
    code
}

impl RaBitQ {
    /// The code of a vector about a centroid.
    pub open spec fn code_of<D: Distance>(&self, dist: D, v: Seq<u32>, centroid: Seq<u32>) -> Seq<
        u8,
    > {
        packed(
            dist,
            self.prepared(dist, v, centroid),
            self.prepared_norm(dist, v, centroid),
        )
    }

    pub proof fn lemma_words(&self)
        requires
            self.wf(),
        ensures
            self.padded % 64 == 0,
            self.code_len() == 8 * (self.padded / 64) + 8,
    {
        lemma_pow2_multiple(self.padded as int);
    }

    /// Codes a vector about a centroid of the caller's.
    pub fn encode_with<D: Distance>(&self, dist: D, v: &[u32], centroid: &[u32]) -> (r: Vec<u8>)
        requires
            self.wf(),
            v@.len() == self.dim,
            centroid@.len() == self.dim,
        ensures
            r@ == self.code_of(dist, v@, centroid@),
            r@.len() == self.code_len(),
    {
        let (r, norm) = self.prep_with(dist, v, centroid);
        proof {
            self.lemma_words();
        }
        pack(dist, &r, norm)
    }

    /// Codes a vector about the trained centroid.
    pub fn encode<D: Distance>(&self, dist: D, v: &[u32]) -> (r: Vec<u8>)
        requires
            self.wf(),
            v@.len() == self.dim,
        ensures
            r@ == self.code_of(dist, v@, self.centroid@),
            r@.len() == self.code_len(),
    {
        self.encode_with(dist, v, self.centroid.as_slice())
    }

    pub fn dim(&self) -> (r: usize)
        ensures
            r == self.dim,
    {
        self.dim
    }

    pub fn padded_dim(&self) -> (r: usize)
        ensures
            r == self.padded,
    {
        self.padded
    }

    /// Bytes of a code.
    pub fn code_size(&self) -> (r: usize)
        ensures
            r == self.code_len(),
    {
        self.padded / 8 + 8
    }
}

/// A power of two from 64 on is a multiple of 64.
pub proof fn lemma_pow2_multiple(n: int)
    requires
        rotation::is_pow2(n),
        n >= 64,
    ensures
        n % 64 == 0,
    decreases n,
{
    if n > 64 {
        if n / 2 >= 64 {
            lemma_pow2_multiple(n / 2);
        } else {
            reveal_with_fuel(rotation::is_pow2, 9);
        }
    }
}

/// The least of the first `upto` entries.
pub open spec fn low_of(r: Seq<u32>, upto: int) -> u32
    decreases upto,
{
    if upto <= 0 {
        LARGEST
    } else {
        word::min_of(low_of(r, upto - 1), r[upto - 1])
    }
}

/// The greatest of the first `upto` entries.
pub open spec fn high_of(r: Seq<u32>, upto: int) -> u32
    decreases upto,
{
    if upto <= 0 {
        SMALLEST
    } else {
        word::max_of(high_of(r, upto - 1), r[upto - 1])
    }
}

/// The width of a level.
pub open spec fn level_width<D: Distance>(dist: D, r: Seq<u32>) -> u32 {
    dist.quotient_spec(
        dist.difference_spec(high_of(r, r.len() as int), low_of(r, r.len() as int)),
        dist.count_spec(TOP_LEVEL as usize),
    )
}

/// One over the width of a level, or nothing when there is no width.
pub open spec fn level_inverse<D: Distance>(dist: D, r: Seq<u32>) -> u32 {
    if word::less(word::ZERO, level_width(dist, r)) {
        dist.quotient_spec(word::ONE, level_width(dist, r))
    } else {
        word::ZERO
    }
}

/// The level that an entry is rounded to.
pub open spec fn level_of<D: Distance>(dist: D, r: Seq<u32>, i: int) -> u32 {
    let u = dist.rounded_spec(
        dist.product_spec(
            dist.difference_spec(r[i], low_of(r, r.len() as int)),
            level_inverse(dist, r),
        ),
    );
    if u <= TOP_LEVEL {
        u
    } else {
        TOP_LEVEL
    }
}

/// The levels of all entries.
pub open spec fn levels_of<D: Distance>(dist: D, r: Seq<u32>) -> Seq<u32> {
    Seq::new(r.len(), |i: int| level_of(dist, r, i))
}

/// The sum of the first `upto` levels.
pub open spec fn level_sum(levels: Seq<u32>, upto: int) -> int
    decreases upto,
{
    if upto <= 0 {
        0
    } else {
        level_sum(levels, upto - 1) + levels[upto - 1]
    }
}

/// Bit `j` of a level.
pub open spec fn level_bit(u: u32, j: int) -> bool {
    (u >> (j as u32)) & 1 == 1
}

/// Word `q` of plane `j`: bit `j` of the levels of 64 entries.
pub open spec fn plane_word(levels: Seq<u32>, j: int, q: int) -> u64 {
    bits::word_of(|i: int| level_bit(levels[64 * q + i], j), 64)
}

/// The four planes, one after the other.
pub open spec fn planes_of(levels: Seq<u32>, words: int) -> Seq<u64> {
    Seq::new((4 * words) as nat, |x: int| plane_word(levels, x / words, x % words))
}

fn make_plane_word(levels: &Vec<u32>, j: u32, q: usize) -> (w: u64)
    requires
        j < 32,
        64 * q + 64 <= levels@.len(),
    ensures
        w == plane_word(levels@, j as int, q as int),
{
    let total: usize = levels.len();
    let ghost f = |i: int| level_bit(levels@[64 * q + i], j as int);
    let mut w: u64 = 0;
    let mut i: usize = 0;
    while i < 64
        invariant
            i <= 64,
            j < 32,
            64 * q + 64 <= total == levels@.len(),
            f == (|i: int| level_bit(levels@[64 * q + i], j as int)),
            w == bits::word_of(f, i as int),
        decreases 64 - i,
    {
        if (levels[64 * q + i] >> j) & 1 == 1 {
            w = bits::with_bit(w, i as u64);
        }
        i = i + 1;
    }
    assert(f =~= |i: int| level_bit(levels@[64 * (q as int) + i], j as int));
    w
}

fn make_planes(levels: &Vec<u32>, words: usize) -> (planes: Vec<u64>)
    requires
        levels@.len() == 64 * words,
        words > 0,
    ensures
        planes@ == planes_of(levels@, words as int),
{
    let total: usize = levels.len();
    let mut planes: Vec<u64> = Vec::new();
    let mut j: usize = 0;
    while j < 4
        invariant
            j <= 4,
            words > 0,
            total == levels@.len() == 64 * words,
            planes@.len() == j * words,
            forall|x: int|
                0 <= x < planes@.len() ==> #[trigger] planes@[x] == planes_of(
                    levels@,
                    words as int,
                )[x],
        decreases 4 - j,
    {
        let mut q: usize = 0;
        while q < words
            invariant
                q <= words,
                j < 4,
                words > 0,
                total == levels@.len() == 64 * words,
                planes@.len() == j * words + q,
                forall|x: int|
                    0 <= x < planes@.len() ==> #[trigger] planes@[x] == planes_of(
                        levels@,
                        words as int,
                    )[x],
            decreases words - q,
        {
            let w: u64 = make_plane_word(levels, j as u32, q);
            proof {
                vstd::arithmetic::div_mod::lemma_fundamental_div_mod_converse(
                    j * words + q,
                    words as int,
                    j as int,
                    q as int,
                );
                assert(j * words + q < 4 * words) by (nonlinear_arith)
                    requires
                        j < 4,
                        q < words,
                ;
            }
            planes.push(w);
            q = q + 1;
        }
        assert(j * words + words == (j + 1) * words) by (nonlinear_arith);
        j = j + 1;
    }
    assert(planes@ =~= planes_of(levels@, words as int));
    planes
}

/// A query's constants and planes about a centroid, for vectors that are padded to
/// `padded` entries and rotated by `signs`.
pub open spec fn is_query_about<D: Distance>(
    dist: D,
    padded: usize,
    signs: Seq<u32>,
    q: Seq<u32>,
    centroid: Seq<u32>,
    r: &RaBitQQuery,
) -> bool {
    let c = centred(dist, q, centroid, padded as int);
    let nq = norm_of(dist, c);
    let v = rotation::rotated(dist, normed(dist, c, nq), signs, ROUNDS as int);
    let lo = low_of(v, v.len() as int);
    let delta = level_width(dist, v);
    let levels = levels_of(dist, v);
    let sd = dist.root_spec(dist.count_spec(padded));
    &&& r.words == padded / 64
    &&& r.planes@ == planes_of(levels, r.words as int)
    &&& r.nq2 == dist.product_spec(nq, nq)
    &&& r.s == dist.product_spec(TWO, nq)
    &&& r.k1 == dist.quotient_spec(dist.product_spec(TWO, delta), sd)
    &&& r.k2 == dist.quotient_spec(dist.product_spec(TWO, lo), sd)
    &&& r.k3 == dist.quotient_spec(
        word::negated(
            dist.sum_spec(
                dist.product_spec(
                    delta,
                    dist.count_spec(level_sum(levels, levels.len() as int) as usize),
                ),
                dist.product_spec(dist.count_spec(padded), lo),
            ),
        ),
        sd,
    )
}

/// A query that was prepared about a centroid. All ways to prepare it agree in what
/// they hold.
pub open spec fn query_about<D: Distance>(
    dist: D,
    padded: usize,
    signs: Seq<u32>,
    q: Seq<u32>,
    centroid: Seq<u32>,
) -> RaBitQQuery {
    choose|r: RaBitQQuery| #[trigger] is_query_about(dist, padded, signs, q, centroid, &r)
}

impl RaBitQ {
    /// A query's constants and planes, about a centroid.
    pub open spec fn is_query<D: Distance>(
        &self,
        dist: D,
        q: Seq<u32>,
        centroid: Seq<u32>,
        r: &RaBitQQuery,
    ) -> bool {
        is_query_about(dist, self.padded, self.signs@, q, centroid, r)
    }

    /// Prepares a query about a centroid of the caller's.
    pub fn query_with<D: Distance>(&self, dist: D, q: &[u32], centroid: &[u32]) -> (r: RaBitQQuery)
        requires
            self.wf(),
            q@.len() == self.dim,
            centroid@.len() == self.dim,
        ensures
            self.is_query(dist, q@, centroid@, &r),
    {
        let (v, nq) = self.prep_with(dist, q, centroid);
        let n: usize = v.len();
        let mut lo: u32 = LARGEST;
        let mut hi: u32 = SMALLEST;
        let mut i: usize = 0;
        while i < n
            invariant
                i <= n == v@.len(),
                lo == low_of(v@, i as int),
                hi == high_of(v@, i as int),
            decreases n - i,
        {
            lo = word::min(lo, v[i]);
            hi = word::max(hi, v[i]);
            i = i + 1;
        }
        let delta: u32 = dist.quotient(dist.difference(hi, lo), dist.count(TOP_LEVEL as usize));
        let inv: u32 = if word::lt(word::ZERO, delta) {
            dist.quotient(word::ONE, delta)
        } else {
            word::ZERO
        };
        let mut levels: Vec<u32> = Vec::new();
        let mut total: usize = 0;
        let mut i: usize = 0;
        while i < n
            invariant
                i <= n == v@.len(),
                n <= MAX_PADDED,
                lo == low_of(v@, n as int),
                inv == level_inverse(dist, v@),
                levels@.len() == i,
                forall|p: int| 0 <= p < i ==> #[trigger] levels@[p] == level_of(dist, v@, p),
                total == level_sum(levels@, i as int),
                total <= 15 * i,
            decreases n - i,
        {
            let raw: u32 = dist.rounded(dist.product(dist.difference(v[i], lo), inv));
            let u: u32 = if raw <= TOP_LEVEL {
                raw
            } else {
                TOP_LEVEL
            };
            let ghost before = levels@;
            levels.push(u);
            proof {
                lemma_level_sum_prefix(before, levels@, i as int);
            }
            total = total + u as usize;
            i = i + 1;
        }
        assert(levels@ =~= levels_of(dist, v@));
        proof {
            self.lemma_words();
        }
        let words: usize = self.padded / 64;
        let planes = make_planes(&levels, words);
        let sd: u32 = dist.root(dist.count(self.padded));
        RaBitQQuery {
            planes,
            words,
            nq2: dist.product(nq, nq),
            s: dist.product(TWO, nq),
            k1: dist.quotient(dist.product(TWO, delta), sd),
            k2: dist.quotient(dist.product(TWO, lo), sd),
            k3: dist.quotient(
                word::negate(
                    dist.sum(
                        dist.product(delta, dist.count(total)),
                        dist.product(dist.count(self.padded), lo),
                    ),
                ),
                sd,
            ),
        }
    }

    /// Prepares a query about the trained centroid.
    pub fn query<D: Distance>(&self, dist: D, q: &[u32]) -> (r: RaBitQQuery)
        requires
            self.wf(),
            q@.len() == self.dim,
        ensures
            self.is_query(dist, q@, self.centroid@, &r),
    {
        self.query_with(dist, q, self.centroid.as_slice())
    }
}

proof fn lemma_level_sum_prefix(a: Seq<u32>, b: Seq<u32>, upto: int)
    requires
        0 <= upto <= a.len() <= b.len(),
        forall|i: int| 0 <= i < upto ==> #[trigger] a[i] == b[i],
    ensures
        level_sum(a, upto) == level_sum(b, upto),
    decreases upto,
{
    if upto > 0 {
        lemma_level_sum_prefix(a, b, upto - 1);
        assert(a[upto - 1] == b[upto - 1]);
    }
}

/// Word `q` of a code.
pub open spec fn code_word(code: Seq<u8>, q: int) -> u64 {
    bytes::le_value(code.subrange(8 * q, 8 * q + 8)) as u64
}

/// The ones of a word in each plane, weighted by the plane.
pub open spec fn weighted_ones(w: u64, planes: Seq<u64>, words: int, q: int) -> int {
    bits::ones(w & planes[q], 64) + 2 * bits::ones(w & planes[words + q], 64) + 4 * bits::ones(
        w & planes[2 * words + q],
        64,
    ) + 8 * bits::ones(w & planes[3 * words + q], 64)
}

/// The weighted ones of the first `upto` words of a code, and all their ones.
pub open spec fn bit_products(code: Seq<u8>, planes: Seq<u64>, words: int, upto: int) -> (int, int)
    decreases upto,
{
    if upto <= 0 {
        (0, 0)
    } else {
        let before = bit_products(code, planes, words, upto - 1);
        let w = code_word(code, upto - 1);
        (before.0 + weighted_ones(w, planes, words, upto - 1), before.1 + bits::ones(w, 64))
    }
}

/// The inner product of a code's bits with the levels in the planes, and the number of
/// bits that are set.
pub fn ip_bits(code: &[u8], planes: &Vec<u64>, words: usize) -> (r: (u32, u32))
    requires
        words <= MAX_PADDED / 64,
        code@.len() == 8 * words,
        planes@.len() == 4 * words,
    ensures
        (r.0 as int, r.1 as int) == bit_products(code@, planes@, words as int, words as int),
{
    let total: usize = code.len();
    let mut s: u32 = 0;
    let mut c: u32 = 0;
    let mut q: usize = 0;
    while q < words
        invariant
            q <= words <= MAX_PADDED / 64,
            total == code@.len() == 8 * words,
            planes@.len() == 4 * words,
            (s as int, c as int) == bit_products(code@, planes@, words as int, q as int),
            s <= 960 * q,
            c <= 64 * q,
        decreases words - q,
    {
        let w: u64 = bytes::read_u64(code, 8 * q);
        assert(w == code_word(code@, q as int));
        let p0: u64 = planes[q];
        let p1: u64 = planes[words + q];
        let p2: u64 = planes[2 * words + q];
        let p3: u64 = planes[3 * words + q];
        proof {
            bits::lemma_ones_bound(w, 64);
            bits::lemma_ones_bound(w & p0, 64);
            bits::lemma_ones_bound(w & p1, 64);
            bits::lemma_ones_bound(w & p2, 64);
            bits::lemma_ones_bound(w & p3, 64);
        }
        c = c + w.count_ones();
        s = s + (w & p0).count_ones() + 2 * (w & p1).count_ones() + 4 * (w & p2).count_ones() + 8
            * (w & p3).count_ones();
        q = q + 1;
    }
    (s, c)
}

/// The estimate of the squared distance between a prepared query and a code.
pub open spec fn estimate<D: Distance>(dist: D, q: &RaBitQQuery, code: Seq<u8>) -> u32 {
    let at = 8 * q.words as int;
    let (s, c) = bit_products(code.take(at), q.planes@, q.words as int, q.words as int);
    let n2 = bytes::word_at(code, at);
    let fac = bytes::word_at(code, at + 4);
    let inner = dist.sum_spec(
        dist.sum_spec(
            dist.product_spec(q.k1, dist.count_spec(s as usize)),
            dist.product_spec(q.k2, dist.count_spec(c as usize)),
        ),
        q.k3,
    );
    word::max_of(
        dist.difference_spec(
            dist.sum_spec(n2, q.nq2),
            dist.product_spec(dist.product_spec(q.s, fac), inner),
        ),
        word::ZERO,
    )
}

/// The radius within which the squared distance lies about its estimate, with high
/// probability.
pub open spec fn error_radius<D: Distance>(
    dist: D,
    padded: usize,
    q: &RaBitQQuery,
    code: Seq<u8>,
) -> u32 {
    let at = 8 * q.words as int;
    let n2 = bytes::word_at(code, at);
    let fac = bytes::word_at(code, at + 4);
    let ip = if word::less(word::ZERO, fac) {
        dist.quotient_spec(dist.root_spec(n2), fac)
    } else {
        word::ZERO
    };
    if word::less(word::ZERO, ip) {
        dist.product_spec(
            dist.product_spec(dist.product_spec(q.s, fac), EPS0),
            dist.root_spec(
                dist.quotient_spec(
                    word::max_of(
                        dist.difference_spec(word::ONE, dist.product_spec(ip, ip)),
                        word::ZERO,
                    ),
                    dist.difference_spec(dist.count_spec(padded), word::ONE),
                ),
            ),
        )
    } else {
        word::INFINITY
    }
}

/// A query whose planes fit its words.
pub open spec fn fits_query(q: &RaBitQQuery) -> bool {
    q.words <= MAX_PADDED / 64 && q.planes@.len() == 4 * q.words
}

impl RaBitQ {
    /// A query prepared by a well-formed quantizer fits.
    pub proof fn lemma_query_fits<D: Distance>(
        &self,
        dist: D,
        v: Seq<u32>,
        centroid: Seq<u32>,
        q: &RaBitQQuery,
    )
        requires
            self.wf(),
            self.is_query(dist, v, centroid, q),
        ensures
            fits_query(q),
            q.words == self.padded / 64,
            8 * q.words + 8 == self.code_len(),
    {
        self.lemma_words();
    }

    /// Estimates the squared distance between a prepared query and a code.
    pub fn distance<D: Distance>(&self, dist: D, q: &RaBitQQuery, code: &[u8]) -> (d: u32)
        requires
            fits_query(q),
            code@.len() >= 8 * q.words + 8,
        ensures
            d == estimate(dist, q, code@),
    {
        let total: usize = code.len();
        let at: usize = 8 * q.words;
        let head = vstd::slice::slice_subrange(code, 0, at);
        assert(head@ =~= code@.take(at as int));
        let (s, c) = ip_bits(head, &q.planes, q.words);
        let n2: u32 = bytes::read_u32(code, at);
        let fac: u32 = bytes::read_u32(code, at + 4);
        let inner: u32 = dist.sum(
            dist.sum(
                dist.product(q.k1, dist.count(s as usize)),
                dist.product(q.k2, dist.count(c as usize)),
            ),
            q.k3,
        );
        word::max(
            dist.difference(dist.sum(n2, q.nq2), dist.product(dist.product(q.s, fac), inner)),
            word::ZERO,
        )
    }

    /// The estimate and its error radius.
    pub fn distance_with_bound<D: Distance>(&self, dist: D, q: &RaBitQQuery, code: &[u8]) -> (r: (
        u32,
        u32,
    ))
        requires
            fits_query(q),
            code@.len() >= 8 * q.words + 8,
        ensures
            r.0 == estimate(dist, q, code@),
            r.1 == error_radius(dist, self.padded, q, code@),
    {
        let est: u32 = self.distance(dist, q, code);
        let total: usize = code.len();
        let at: usize = 8 * q.words;
        let n2: u32 = bytes::read_u32(code, at);
        let fac: u32 = bytes::read_u32(code, at + 4);
        let ip: u32 = if word::lt(word::ZERO, fac) {
            dist.quotient(dist.root(n2), fac)
        } else {
            word::ZERO
        };
        let err: u32 = if word::lt(word::ZERO, ip) {
            let left: u32 = word::max(
                dist.difference(word::ONE, dist.product(ip, ip)),
                word::ZERO,
            );
            let spread: u32 = dist.root(
                dist.quotient(left, dist.difference(dist.count(self.padded), word::ONE)),
            );
            dist.product(dist.product(dist.product(q.s, fac), EPS0), spread)
        } else {
            word::INFINITY
        };
        (est, err)
    }

    /// Estimates the squared distance between a query and a code about the trained
    /// centroid.
    pub fn asymmetric_distance<D: Distance>(&self, dist: D, query: &[u32], code: &[u8]) -> (d: u32)
        requires
            self.wf(),
            query@.len() == self.dim,
            code@.len() == self.code_len(),
        ensures
            exists|q: &RaBitQQuery| #[trigger]
                self.is_query(dist, query@, self.centroid@, q) && d == estimate(dist, q, code@),
    {
        let q = self.query(dist, query);
        proof {
            self.lemma_query_fits(dist, query@, self.centroid@, &q);
        }
        self.distance(dist, &q, code)
    }
}

/// The signs of a code as numbers: one over the root of the length, or its negative.
pub open spec fn unpacked<D: Distance>(dist: D, code: Seq<u8>, padded: usize) -> Seq<u32> {
    let unit = dist.quotient_spec(word::ONE, dist.root_spec(dist.count_spec(padded)));
    let minus = dist.quotient_spec(
        word::negated(word::ONE),
        dist.root_spec(dist.count_spec(padded)),
    );
    Seq::new(
        padded as nat,
        |i: int|
            if bits::bit(code_word(code, i / 64), (i % 64) as u64) {
                unit
            } else {
                minus
            },
    )
}

impl RaBitQ {
    /// The vector that a code about a centroid stands for.
    pub open spec fn decoded<D: Distance>(&self, dist: D, code: Seq<u8>, centroid: Seq<u32>) -> Seq<
        u32,
    > {
        let v = rotation::unrotated(
            dist,
            unpacked(dist, code, self.padded),
            self.signs@,
            0,
            ROUNDS as int,
        );
        let norm = dist.root_spec(bytes::word_at(code, (self.padded / 8) as int));
        Seq::new(
            self.dim as nat,
            |i: int| dist.sum_spec(centroid[i], dist.product_spec(norm, v[i])),
        )
    }

    /// Decodes a code about a centroid of the caller's.
    pub fn decode_with<D: Distance>(&self, dist: D, codes: &[u8], centroid: &[u32]) -> (r: Vec<u32>)
        requires
            self.wf(),
            codes@.len() == self.code_len(),
            centroid@.len() == self.dim,
        ensures
            r@ == self.decoded(dist, codes@, centroid@),
            r@.len() == self.dim,
    {
        proof {
            self.lemma_words();
        }
        let sd: u32 = dist.root(dist.count(self.padded));
        let unit: u32 = dist.quotient(word::ONE, sd);
        let minus: u32 = dist.quotient(word::negate(word::ONE), sd);
        let mut v: Vec<u32> = Vec::new();
        let mut i: usize = 0;
        while i < self.padded
            invariant
                i <= self.padded,
                self.padded % 64 == 0,
                codes@.len() == 8 * (self.padded / 64) + 8,
                self.padded <= MAX_PADDED,
                unit == dist.quotient_spec(
                    word::ONE,
                    dist.root_spec(dist.count_spec(self.padded)),
                ),
                minus == dist.quotient_spec(
                    word::negated(word::ONE),
                    dist.root_spec(dist.count_spec(self.padded)),
                ),
                v@.len() == i,
                forall|p: int|
                    0 <= p < i ==> #[trigger] v@[p] == unpacked(dist, codes@, self.padded)[p],
            decreases self.padded - i,
        {
            let w: u64 = bytes::read_u64(codes, 8 * (i / 64));
            let t: u64 = (i % 64) as u64;
            if (w >> t) & 1 == 1 {
                v.push(unit);
            } else {
                v.push(minus);
            }
            i = i + 1;
        }
        assert(v@ =~= unpacked(dist, codes@, self.padded));
        rotation::unrotate(dist, &mut v, &self.signs, ROUNDS);
        let norm: u32 = dist.root(bytes::read_u32(codes, self.padded / 8));
        let mut r: Vec<u32> = Vec::new();
        let mut i: usize = 0;
        while i < self.dim
            invariant
                i <= self.dim <= self.padded,
                centroid@.len() == self.dim,
                v@.len() == self.padded,
                r@.len() == i,
                forall|p: int|
                    0 <= p < i ==> #[trigger] r@[p] == dist.sum_spec(
                        centroid@[p],
                        dist.product_spec(norm, v@[p]),
                    ),
            decreases self.dim - i,
        {
            r.push(dist.sum(centroid[i], dist.product(norm, v[i])));
            i = i + 1;
        }
        assert(r@ =~= self.decoded(dist, codes@, centroid@));
        r
    }

    /// Decodes a code about the trained centroid.
    pub fn decode<D: Distance>(&self, dist: D, codes: &[u8]) -> (r: Vec<u32>)
        requires
            self.wf(),
            codes@.len() == self.code_len(),
        ensures
            r@ == self.decoded(dist, codes@, self.centroid@),
            r@.len() == self.dim,
    {
        self.decode_with(dist, codes, self.centroid.as_slice())
    }

    /// The signs of a quantizer: coin flips that pick one over the root of the length
    /// or its negative.
    pub open spec fn signs_for<D: Distance>(dist: D, padded: usize) -> Seq<u32> {
        let scale = dist.quotient_spec(word::ONE, dist.root_spec(dist.count_spec(padded)));
        let flips = random::coin_flips(SIGN_SEED, (ROUNDS * padded) as nat);
        Seq::new(
            (ROUNDS * padded) as nat,
            |i: int|
                if flips[i] {
                    scale
                } else {
                    word::negated(scale)
                },
        )
    }

    /// The quantizer is what training on vectors gives: its centroid is their mean, and its
    /// signs depend on the number of components alone.
    pub open spec fn is_trained<D: Distance>(&self, dist: D, vectors: Seq<Vec<u32>>) -> bool {
        &&& self.dim == vectors[0]@.len()
        &&& self.padded == padded_for(vectors[0]@.len() as int)
        &&& self.centroid@ == metric::mean_of(dist, metric::rows(vectors))
        &&& self.signs@ == Self::signs_for(dist, self.padded)
    }

    /// Trains a quantizer on vectors: its centroid is their mean.
    pub fn train<D: Distance>(dist: D, vectors: &Vec<Vec<u32>>) -> (r: Result<Self, DiskAnnError>)
        requires
            vectors@.len() > 0 ==> vectors@[0]@.len() <= MAX_PADDED,
        ensures
            match training_shape_fault(vectors@) {
                Some(fault) => r is Err && r->Err_0 == DiskAnnError::IndexError(fault),
                None => r is Ok && r->Ok_0.wf() && r->Ok_0.is_trained(dist, vectors@),
            },
    {
        match check_training(vectors) {
            Some(fault) => {
                return Err(DiskAnnError::IndexError(fault));
            },
            None => {},
        }
        let dim: usize = vectors[0].len();
        let padded: usize = padded_length(dim);
        let centroid = metric::mean(dist, vectors);
        let scale: u32 = dist.quotient(word::ONE, dist.root(dist.count(padded)));
        let flips = random::flip_coins(SIGN_SEED, ROUNDS * padded);
        let mut signs: Vec<u32> = Vec::new();
        let mut i: usize = 0;
        while i < flips.len()
            invariant
                i <= flips@.len(),
                signs@.len() == i,
                forall|p: int|
                    0 <= p < i ==> #[trigger] signs@[p] == if flips@[p] {
                        scale
                    } else {
                        word::negated(scale)
                    },
            decreases flips@.len() - i,
        {
            if flips[i] {
                signs.push(scale);
            } else {
                signs.push(word::negate(scale));
            }
            i = i + 1;
        }
        assert(signs@ =~= Self::signs_for(dist, padded));
        Ok(RaBitQ { dim, padded, centroid, signs })
    }
}

/// What makes vectors unfit to train on.
pub open spec fn training_shape_fault(vectors: Seq<Vec<u32>>) -> Option<Fault> {
    if vectors.len() == 0 {
        Some(Fault::NothingToTrainOn)
    } else {
        match crate::index::first_mismatch(vectors, vectors[0]@.len() as int, 0) {
            Some(i) => Some(
                Fault::TrainingDimension {
                    expected: vectors[0]@.len() as usize,
                    found: vectors[i]@.len() as usize,
                },
            ),
            None => None,
        }
    }
}

/// Checks vectors to train on.
pub fn check_training(vectors: &Vec<Vec<u32>>) -> (r: Option<Fault>)
    ensures
        r == training_shape_fault(vectors@),
        r is None ==> vectors@.len() > 0 && forall|i: int|
            0 <= i < vectors@.len() ==> (#[trigger] vectors@[i])@.len() == vectors@[0]@.len(),
{
    if vectors.len() == 0 {
        return Some(Fault::NothingToTrainOn);
    }
    let dim: usize = vectors[0].len();
    let mut i: usize = 0;
    while i < vectors.len()
        invariant
            i <= vectors@.len(),
            vectors@.len() > 0,
            dim == vectors@[0]@.len(),
            forall|j: int| 0 <= j < i ==> (#[trigger] vectors@[j])@.len() == dim,
            crate::index::first_mismatch(vectors@, dim as int, 0) == crate::index::first_mismatch(
                vectors@,
                dim as int,
                i as int,
            ),
        decreases vectors@.len() - i,
    {
        if vectors[i].len() != dim {
            return Some(Fault::TrainingDimension { expected: dim, found: vectors[i].len() });
        }
        i = i + 1;
    }
    None
}

/// The levels of the entries among the first `upto` of word `q` whose bits are set.
pub open spec fn picked_in_word(w: u64, levels: Seq<u32>, q: int, upto: int) -> int
    decreases upto,
{
    if upto <= 0 {
        0
    } else {
        picked_in_word(w, levels, q, upto - 1) + if bits::bit(w, (upto - 1) as u64) {
            levels[64 * q + upto - 1] as int
        } else {
            0
        }
    }
}

/// The sum of the levels of the entries whose bits are set in the first `upto` words.
pub open spec fn picked_levels(code: Seq<u8>, levels: Seq<u32>, upto: int) -> int
    decreases upto,
{
    if upto <= 0 {
        0
    } else {
        picked_levels(code, levels, upto - 1) + picked_in_word(
            code_word(code, upto - 1),
            levels,
            upto - 1,
            64,
        )
    }
}

proof fn lemma_level_bits(u: u32)
    requires
        u <= 15,
    ensures
        u == (if level_bit(u, 0) {
            1int
        } else {
            0
        }) + (if level_bit(u, 1) {
            2int
        } else {
            0
        }) + (if level_bit(u, 2) {
            4int
        } else {
            0
        }) + (if level_bit(u, 3) {
            8int
        } else {
            0
        }),
{
    assert(u == ((u >> 0) & 1) + 2 * ((u >> 1) & 1) + 4 * ((u >> 2) & 1) + 8 * ((u >> 3) & 1))
        by (bit_vector)
        requires
            u <= 15,
    ;
    assert((u >> 0) & 1 <= 1 && (u >> 1) & 1 <= 1 && (u >> 2) & 1 <= 1 && (u >> 3) & 1 <= 1)
        by (bit_vector);
}

proof fn lemma_and_bit(w: u64, p: u64, i: u64)
    requires
        i < 64,
    ensures
        bits::bit(w & p, i) <==> bits::bit(w, i) && bits::bit(p, i),
{
    assert(((w & p) >> i) & 1 == 1 <==> ((w >> i) & 1 == 1 && (p >> i) & 1 == 1)) by (bit_vector)
        requires
            i < 64,
    ;
}

proof fn lemma_word_products(w: u64, levels: Seq<u32>, words: int, q: int, upto: int)
    requires
        0 <= q < words,
        levels.len() == 64 * words,
        forall|i: int| 0 <= i < levels.len() ==> #[trigger] levels[i] <= 15,
        0 <= upto <= 64,
    ensures
        ({
            let planes = planes_of(levels, words);
            bits::ones(w & planes[q], upto) + 2 * bits::ones(w & planes[words + q], upto) + 4
                * bits::ones(w & planes[2 * words + q], upto) + 8 * bits::ones(
                w & planes[3 * words + q],
                upto,
            ) == picked_in_word(w, levels, q, upto)
        }),
    decreases upto,
{
    if upto > 0 {
        lemma_word_products(w, levels, words, q, upto - 1);
        let planes = planes_of(levels, words);
        let i = (upto - 1) as u64;
        let u = levels[64 * q + upto - 1];
        assert forall|j: int| 0 <= j < 4 implies bits::bit(
            w & #[trigger] planes[j * words + q],
            i,
        ) == (bits::bit(w, i) && level_bit(u, j)) by {
            vstd::arithmetic::div_mod::lemma_fundamental_div_mod_converse(
                j * words + q,
                words,
                j,
                q,
            );
            assert(0 <= j * words + q < 4 * words) by (nonlinear_arith)
                requires
                    0 <= j < 4,
                    0 <= q < words,
            ;
            let p = planes[j * words + q];
            assert(p == plane_word(levels, j, q));
            bits::lemma_word_of(|t: int| level_bit(levels[64 * q + t], j), 64, i);
            lemma_and_bit(w, p, i);
        }
        assert(planes[0 * words + q] == planes[q]);
        assert(planes[1 * words + q] == planes[words + q]);
        assert(bits::bit(w & planes[2 * words + q], i) == (bits::bit(w, i) && level_bit(u, 2)));
        assert(bits::bit(w & planes[3 * words + q], i) == (bits::bit(w, i) && level_bit(u, 3)));
        lemma_level_bits(u);
    }
}

/// Counting bits plane by plane adds up the levels of the entries whose bits are set in
/// a code.
pub proof fn planes_add_up(code: Seq<u8>, levels: Seq<u32>, words: int, upto: int)
    requires
        0 <= upto <= words,
        levels.len() == 64 * words,
        forall|i: int| 0 <= i < levels.len() ==> #[trigger] levels[i] <= 15,
    ensures
        bit_products(code, planes_of(levels, words), words, upto).0 == picked_levels(
            code,
            levels,
            upto,
        ),
    decreases upto,
{
    if upto > 0 {
        planes_add_up(code, levels, words, upto - 1);
        lemma_word_products(code_word(code, upto - 1), levels, words, upto - 1, 64);
    }
}

/// The bits of a code are the signs of the rotated direction that it was made of.
pub proof fn signs_are_kept(r: Seq<u32>, q: int, i: u64)
    requires
        0 <= q,
        64 * q + 64 <= r.len(),
        i < 64,
    ensures
        bits::bit(sign_word(r, q), i) <==> word::less(word::ZERO, r[64 * q + i]),
{
    bits::lemma_word_of(|t: int| word::less(word::ZERO, r[64 * q + t]), 64, i);
}

/// Quantizers that were trained on the same vectors code every vector alike.
pub proof fn training_again_codes_alike<D: Distance>(
    a: &RaBitQ,
    b: &RaBitQ,
    dist: D,
    vectors: Seq<Vec<u32>>,
    v: Seq<u32>,
)
    requires
        a.is_trained(dist, vectors),
        b.is_trained(dist, vectors),
    ensures
        a.code_of(dist, v, a.centroid@) == b.code_of(dist, v, b.centroid@),
{
}

} // verus!
