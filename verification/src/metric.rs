//! Distances between vectors.
use crate::word;
use vstd::prelude::*;

verus! {

/// Which distance a metric computes, as far as codes of vectors can be compared without
/// decoding them.
#[derive(Clone, Copy, Debug, PartialEq, Eq, Structural)]
pub enum MetricKind {
    /// Euclidean distance.
    L2,
    /// Squared Euclidean distance.
    L2Sq,
    /// Any other distance.
    Other,
}

/// A metric, with the binary32 arithmetic that the indexes need beside it. Components,
/// distances and factors are binary32 patterns.
///
/// An implementation returns one result for one input. Nothing else is asked of the
/// numbers: a distance may be negative, or not a number.
pub trait Distance: Copy {
    /// The distance between two vectors of one length.
    closed spec fn eval_spec(&self, a: Seq<u32>, b: Seq<u32>) -> u32 {
        vstd::pervasive::arbitrary()
    }

    fn eval(&self, a: &[u32], b: &[u32]) -> (d: u32)
        requires
            a@.len() == b@.len(),
        ensures
            d == self.eval_spec(a@, b@),
    ;

    /// The squared Euclidean distance between two vectors of one length.
    closed spec fn square_l2_spec(&self, a: Seq<u32>, b: Seq<u32>) -> u32 {
        vstd::pervasive::arbitrary()
    }

    fn square_l2(&self, a: &[u32], b: &[u32]) -> (d: u32)
        requires
            a@.len() == b@.len(),
        ensures
            d == self.square_l2_spec(a@, b@),
    ;

    /// Which distance this is.
    closed spec fn kind_spec(&self) -> MetricKind {
        vstd::pervasive::arbitrary()
    }

    fn kind(&self) -> (r: MetricKind)
        ensures
            r == self.kind_spec(),
    ;

    /// What an index records as the name of its metric.
    closed spec fn name_spec(&self) -> Seq<char> {
        vstd::pervasive::arbitrary()
    }

    fn name(&self) -> (r: String)
        ensures
            r@ == self.name_spec(),
    ;

    /// `a` plus `b`.
    closed spec fn sum_spec(&self, a: u32, b: u32) -> u32 {
        vstd::pervasive::arbitrary()
    }

    fn sum(&self, a: u32, b: u32) -> (r: u32)
        ensures
            r == self.sum_spec(a, b),
    ;

    /// `a` minus `b`.
    closed spec fn difference_spec(&self, a: u32, b: u32) -> u32 {
        vstd::pervasive::arbitrary()
    }

    fn difference(&self, a: u32, b: u32) -> (r: u32)
        ensures
            r == self.difference_spec(a, b),
    ;

    /// `a` times `b`.
    closed spec fn product_spec(&self, a: u32, b: u32) -> u32 {
        vstd::pervasive::arbitrary()
    }

    fn product(&self, a: u32, b: u32) -> (r: u32)
        ensures
            r == self.product_spec(a, b),
    ;

    /// `a` divided by `b`.
    closed spec fn quotient_spec(&self, a: u32, b: u32) -> u32 {
        vstd::pervasive::arbitrary()
    }

    fn quotient(&self, a: u32, b: u32) -> (r: u32)
        ensures
            r == self.quotient_spec(a, b),
    ;

    /// The square root.
    closed spec fn root_spec(&self, a: u32) -> u32 {
        vstd::pervasive::arbitrary()
    }

    fn root(&self, a: u32) -> (r: u32)
        ensures
            r == self.root_spec(a),
    ;

    /// A whole number as a binary32 number.
    closed spec fn count_spec(&self, n: usize) -> u32 {
        vstd::pervasive::arbitrary()
    }

    fn count(&self, n: usize) -> (r: u32)
        ensures
            r == self.count_spec(n),
    ;

    /// The nearest whole number, 0 for what is below it or not a number.
    closed spec fn rounded_spec(&self, a: u32) -> u32 {
        vstd::pervasive::arbitrary()
    }

    fn rounded(&self, a: u32) -> (r: u32)
        ensures
            r == self.rounded_spec(a),
    ;

    /// The components in half precision, as 16-bit patterns.
    closed spec fn to_half_spec(&self, v: Seq<u32>) -> Seq<u16> {
        vstd::pervasive::arbitrary()
    }

    fn to_half(&self, v: &[u32]) -> (r: Vec<u16>)
        ensures
            r@ == self.to_half_spec(v@),
            r@.len() == v@.len(),
    ;

    /// Half-precision components in binary32.
    closed spec fn from_half_spec(&self, v: Seq<u16>) -> Seq<u32> {
        vstd::pervasive::arbitrary()
    }

    fn from_half(&self, v: &[u16]) -> (r: Vec<u32>)
        ensures
            r@ == self.from_half_spec(v@),
            r@.len() == v@.len(),
    ;

    /// The squared Euclidean distance between half-precision vectors of one length.
    closed spec fn half_l2_spec(&self, a: Seq<u16>, b: Seq<u16>) -> u32 {
        vstd::pervasive::arbitrary()
    }

    fn half_l2(&self, a: &[u16], b: &[u16]) -> (d: u32)
        requires
            a@.len() == b@.len(),
        ensures
            d == self.half_l2_spec(a@, b@),
    ;

    /// Each component times `factor` plus `shift`, rounded to a byte and held within its
    /// range.
    closed spec fn to_bytes_spec(&self, v: Seq<u32>, factor: u32, shift: u32) -> Seq<u8> {
        vstd::pervasive::arbitrary()
    }

    fn to_bytes(&self, v: &[u32], factor: u32, shift: u32) -> (r: Vec<u8>)
        ensures
            r@ == self.to_bytes_spec(v@, factor, shift),
            r@.len() == v@.len(),
    ;

    /// A random part of `total`. Two calls may differ.
    fn portion(&self, total: u32) -> (r: u32)
    ;
}

/// Euclidean distance.
#[derive(Clone, Copy, Debug, Default)]
pub struct DistL2;

/// Squared Euclidean distance.
#[derive(Clone, Copy, Debug, Default)]
pub struct DistL2Sq;

/// Angular distance: one minus the cosine.
#[derive(Clone, Copy, Debug, Default)]
pub struct DistCosine;

/// One minus the inner product.
#[derive(Clone, Copy, Debug, Default)]
pub struct DistDot;

/// The rows of a table, each as a sequence.
pub open spec fn rows(table: Seq<Vec<u32>>) -> Seq<Seq<u32>> {
    table.map_values(|row: Vec<u32>| row@)
}

/// The sum of component `j` over the first `upto` rows, added in turn.
pub open spec fn column_sum<D: Distance>(dist: D, table: Seq<Seq<u32>>, j: int, upto: int) -> u32
    decreases upto,
{
    if upto <= 0 {
        word::ZERO
    } else {
        dist.sum_spec(column_sum(dist, table, j, upto - 1), table[upto - 1][j])
    }
}

/// The mean of vectors: each component's sum over the number of vectors.
pub open spec fn mean_of<D: Distance>(dist: D, table: Seq<Seq<u32>>) -> Seq<u32> {
    Seq::new(
        table[0].len(),
        |j: int|
            dist.quotient_spec(
                column_sum(dist, table, j, table.len() as int),
                dist.count_spec(table.len() as usize),
            ),
    )
}

/// The mean of vectors of one length.
pub fn mean<D: Distance>(dist: D, table: &Vec<Vec<u32>>) -> (r: Vec<u32>)
    requires
        table@.len() > 0,
        forall|i: int| 0 <= i < table@.len() ==> (#[trigger] table@[i])@.len() == table@[0]@.len(),
    ensures
        r@ == mean_of(dist, rows(table@)),
        r@.len() == table@[0]@.len(),
{
    let dim: usize = table[0].len();
    let total: u32 = dist.count(table.len());
    let mut r: Vec<u32> = Vec::new();
    let mut j: usize = 0;
    while j < dim
        invariant
            j <= dim,
            table@.len() > 0,
            dim == table@[0]@.len(),
            forall|i: int|
                0 <= i < table@.len() ==> (#[trigger] table@[i])@.len() == table@[0]@.len(),
            total == dist.count_spec(table@.len() as usize),
            r@.len() == j,
            forall|c: int| 0 <= c < j ==> #[trigger] r@[c] == mean_of(dist, rows(table@))[c],
        decreases dim - j,
    {
        let mut sum: u32 = word::ZERO;
        let mut i: usize = 0;
        while i < table.len()
            invariant
                i <= table@.len(),
                j < dim == table@[0]@.len(),
                forall|i: int|
                    0 <= i < table@.len() ==> (#[trigger] table@[i])@.len() == table@[0]@.len(),
                sum == column_sum(dist, rows(table@), j as int, i as int),
            decreases table@.len() - i,
        {
            assert(table@[i as int]@.len() == dim);
            assert(rows(table@)[i as int] == table@[i as int]@);
            sum = dist.sum(sum, table[i][j]);
            i = i + 1;
        }
        r.push(dist.quotient(sum, total));
        j = j + 1;
    }
    assert(r@ =~= mean_of(dist, rows(table@)));
    r
}

} // verus!
