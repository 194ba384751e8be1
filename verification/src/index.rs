//! An index over a fixed set of vectors, laid out in one run of bytes.
use crate::beam;
use crate::beam::BeamSearchConfig;
use crate::beam::SearchSpace;
use crate::beam::Trace;
use crate::beam::beam_search;
use crate::bytes;
use crate::candidate;
use crate::candidate::Candidate;
use crate::error::DiskAnnError;
use crate::error::Fault;
use crate::metric;
use crate::metric::Distance;
use crate::storage::Storage;
use crate::vamana;
use crate::vamana::Table;
use crate::vamana::build_vamana_graph;
use crate::vamana::calculate_medoid;
use crate::wire;
use crate::word;
use std::sync::Arc;
use vstd::prelude::*;

verus! {

/// What fills the places of a row that hold no neighbour.
pub const PAD_U32: u32 = 0xffff_ffff;

/// The first word of an index: "DANN".
pub const CORE_MAGIC: u32 = 0x4441_4e4e;

/// The format version that is written, and the only one that is read.
pub const CORE_FORMAT_VERSION: u32 = 1;

/// Where the vectors of a new index begin.
pub const VECTORS_OFFSET: u64 = 0x10_0000;

/// The degree that an index is built with when nothing else is asked for.
pub const BUILD_MAX_DEGREE: usize = 32;

/// The beam that an index is built with when nothing else is asked for.
pub const BUILD_BEAM_WIDTH: usize = 256;

/// The degree of a bundle of parameters in which nothing was set.
pub const DISKANN_DEFAULT_MAX_DEGREE: usize = 64;

/// The beam of a bundle of parameters in which nothing was set.
pub const DISKANN_DEFAULT_BUILD_BEAM: usize = 128;

/// The pattern of 1.2.
pub const DISKANN_DEFAULT_ALPHA: u32 = 0x3f99_999a;

/// How an index is built.
#[derive(Clone, Copy, Debug)]
pub struct DiskAnnParams {
    pub max_degree: usize,
    pub build_beam_width: usize,
    pub alpha: u32,
}

impl Default for DiskAnnParams {
    fn default() -> (r: Self)
        ensures
            r.max_degree == 64,
            r.build_beam_width == 128,
            r.alpha == 0x3f99_999a,
    {
        DiskAnnParams {
            max_degree: DISKANN_DEFAULT_MAX_DEGREE,
            build_beam_width: DISKANN_DEFAULT_BUILD_BEAM,
            alpha: DISKANN_DEFAULT_ALPHA,
        }
    }
}

/// An index: a header, the vectors, and for each vector a row of `max_degree` neighbours.
pub struct DiskANN<'a, D: Distance> {
    /// Components of each vector.
    pub dim: usize,
    pub num_vectors: usize,
    /// Places in each row.
    pub max_degree: usize,
    /// The name of the metric that the index was built with.
    pub distance_name: String,
    /// Where searches start.
    pub medoid_id: u32,
    pub vectors_offset: u64,
    pub adjacency_offset: u64,
    pub storage: Storage<'a>,
    pub dist: D,
}

/// Where item `id` of `width` words begins in a region.
pub open spec fn slot(offset: int, id: int, width: int) -> int {
    offset + id * width * 4
}

/// A neighbour, and no padding.
pub open spec fn is_real() -> spec_fn(u32) -> bool {
    |nb: u32| nb != PAD_U32
}

pub proof fn lemma_slot(offset: int, id: int, n: int, width: int)
    requires
        0 <= id < n,
        0 <= width,
    ensures
        0 <= id * width,
        id * width * 4 <= slot(offset, id, width) - offset,
        slot(offset, id, width) + 4 * width == slot(offset, id + 1, width),
        slot(offset, id, width) + 4 * width <= slot(offset, n, width),
{
    assert(0 <= id * width && id * width + width == (id + 1) * width && (id + 1) * width <= n
        * width) by (nonlinear_arith)
        requires
            0 <= id < n,
            0 <= width,
    ;
}

/// Where a region of `count` items ends, if that can be said in a `usize`.
fn region_end(offset: u64, count: usize, width: usize) -> (r: Option<usize>)
    ensures
        r is Some <==> slot(offset as int, count as int, width as int) <= usize::MAX,
        r is Some ==> r->0 == slot(offset as int, count as int, width as int),
{
    proof {
        assert(count * width >= 0) by (nonlinear_arith);
    }
    if offset > usize::MAX as u64 {
        return None;
    }
    match count.checked_mul(width) {
        Some(words) => match words.checked_mul(4) {
            Some(size) => size.checked_add(offset as usize),
            None => None,
        },
        None => None,
    }
}

impl<'a, D: Distance> DiskANN<'a, D> {
    /// The vector at a position.
    pub open spec fn vector(&self, id: int) -> Seq<u32> {
        bytes::words_at(
            self.storage@,
            slot(self.vectors_offset as int, id, self.dim as int),
            self.dim as int,
        )
    }

    /// The row at a position, padding and all.
    pub open spec fn row(&self, id: int) -> Seq<u32> {
        bytes::words_at(
            self.storage@,
            slot(self.adjacency_offset as int, id, self.max_degree as int),
            self.max_degree as int,
        )
    }

    /// The neighbours in a row.
    pub open spec fn links(&self, id: int) -> Seq<u32> {
        self.row(id).filter(is_real())
    }

    /// The two regions lie inside the bytes.
    pub open spec fn fits(&self) -> bool {
        &&& slot(self.vectors_offset as int, self.num_vectors as int, self.dim as int)
            <= self.storage@.len()
        &&& slot(self.adjacency_offset as int, self.num_vectors as int, self.max_degree as int)
            <= self.storage@.len()
    }

    /// The bytes of the vector at a position are there.
    pub open spec fn has_vector(&self, id: int) -> bool {
        &&& 0 <= id
        &&& slot(self.vectors_offset as int, id, self.dim as int) + 4 * self.dim
            <= self.storage@.len() <= usize::MAX
    }

    /// The bytes of the row at a position are there.
    pub open spec fn has_row(&self, id: int) -> bool {
        &&& 0 <= id
        &&& slot(self.adjacency_offset as int, id, self.max_degree as int) + 4 * self.max_degree
            <= self.storage@.len() <= usize::MAX
    }

    /// The bytes of all vectors and rows of a valid index are there.
    pub proof fn lemma_has(&self, id: int)
        requires
            self.fits(),
            self.storage@.len() <= usize::MAX,
            0 <= id < self.num_vectors,
        ensures
            self.has_vector(id),
            self.has_row(id),
    {
        lemma_slot(self.vectors_offset as int, id, self.num_vectors as int, self.dim as int);
        lemma_slot(
            self.adjacency_offset as int,
            id,
            self.num_vectors as int,
            self.max_degree as int,
        );
    }

    /// Every entry of a row is a position or padding.
    pub open spec fn row_is_sound(&self, id: int) -> bool {
        forall|c: int|
            0 <= c < self.max_degree ==> #[trigger] self.row(id)[c] == PAD_U32 || self.row(id)[c]
                < self.num_vectors
    }

    /// The index can be searched: its regions lie inside its bytes, and its rows and
    /// its medoid name vectors that it has.
    pub open spec fn valid(&self) -> bool {
        &&& self.fits()
        &&& self.medoid_id < self.num_vectors
        &&& self.storage@.len() <= usize::MAX
        &&& forall|id: int| 0 <= id < self.num_vectors ==> #[trigger] self.row_is_sound(id)
    }

    /// Whether the index can be searched.
    pub fn validate(&self) -> (r: bool)
        ensures
            r == self.valid(),
    {
        let len: usize = self.storage.as_slice().len();
        let vectors_end = region_end(self.vectors_offset, self.num_vectors, self.dim);
        let rows_end = region_end(self.adjacency_offset, self.num_vectors, self.max_degree);
        match (vectors_end, rows_end) {
            (Some(a), Some(b)) => if a > len || b > len {
                return false;
            },
            _ => {
                return false;
            },
        }
        if self.medoid_id as u64 >= self.num_vectors as u64 {
            return false;
        }
        let mut id: usize = 0;
        while id < self.num_vectors
            invariant
                id <= self.num_vectors,
                self.fits(),
                self.storage@.len() <= usize::MAX,
                forall|i: int| 0 <= i < id ==> #[trigger] self.row_is_sound(i),
            decreases self.num_vectors - id,
        {
            proof {
                self.lemma_has(id as int);
            }
            let row = self.neighbor_row(id);
            let mut c: usize = 0;
            while c < row.len()
                invariant
                    c <= row@.len() == self.max_degree,
                    row@ == self.row(id as int),
                    id < self.num_vectors,
                    forall|i: int|
                        0 <= i < c ==> #[trigger] self.row(id as int)[i] == PAD_U32 || self.row(
                            id as int,
                        )[i] < self.num_vectors,
                decreases row@.len() - c,
            {
                if row[c] != PAD_U32 && row[c] as u64 >= self.num_vectors as u64 {
                    assert(!self.row_is_sound(id as int)) by {
                        assert(self.row(id as int)[c as int] == row@[c as int]);
                    }
                    return false;
                }
                c = c + 1;
            }
            id = id + 1;
        }
        true
    }

    fn neighbor_row(&self, id: usize) -> (r: Vec<u32>)
        requires
            self.has_row(id as int),
        ensures
            r@ == self.row(id as int),
    {
        proof {
            assert(id * self.max_degree >= 0) by (nonlinear_arith);
        }
        let start: usize = self.adjacency_offset as usize + id * self.max_degree * 4;
        bytes::read_words(self.storage.as_slice(), start, self.max_degree)
    }

    /// The row of a node, padding and all.
    pub fn get_neighbors(&self, node_id: u32) -> (r: Vec<u32>)
        requires
            self.has_row(node_id as int),
        ensures
            r@ == self.row(node_id as int),
    {
        self.neighbor_row(node_id as usize)
    }

    /// The neighbours of a node.
    pub fn real_neighbors(&self, node_id: u32) -> (r: Vec<u32>)
        requires
            self.has_row(node_id as int),
        ensures
            r@ == self.links(node_id as int),
    {
        let row = self.neighbor_row(node_id as usize);
        let mut r: Vec<u32> = Vec::new();
        let mut i: usize = 0;
        proof {
            reveal(Seq::filter);
        }
        assert(row@.take(0) =~= Seq::empty());
        while i < row.len()
            invariant
                i <= row@.len(),
                r@ == row@.take(i as int).filter(is_real()),
            decreases row@.len() - i,
        {
            proof {
                reveal(Seq::filter);
            }
            assert(row@.take(i + 1).drop_last() =~= row@.take(i as int));
            if row[i] != PAD_U32 {
                r.push(row[i]);
            }
            i = i + 1;
        }
        assert(row@.take(row@.len() as int) =~= row@);
        r
    }

    /// The vector at a position.
    pub fn get_vector(&self, idx: usize) -> (r: Vec<u32>)
        requires
            self.has_vector(idx as int),
        ensures
            r@ == self.vector(idx as int),
            r@.len() == self.dim,
    {
        proof {
            assert(idx * self.dim >= 0) by (nonlinear_arith);
        }
        let start: usize = self.vectors_offset as usize + idx * self.dim * 4;
        bytes::read_words(self.storage.as_slice(), start, self.dim)
    }

    /// The distance of a query from the vector at a position.
    pub fn distance_to(&self, query: &[u32], idx: usize) -> (d: u32)
        requires
            self.has_vector(idx as int),
            query@.len() == self.dim,
        ensures
            d == self.dist.eval_spec(query@, self.vector(idx as int)),
    {
        let vector = self.get_vector(idx);
        self.dist.eval(query, &vector)
    }

    /// The bytes of the index.
    pub fn to_bytes(&self) -> (r: Vec<u8>)
        ensures
            r@ == self.storage@,
    {
        self.storage.to_vec()
    }
}

proof fn lemma_real(row: Seq<u32>)
    ensures
        forall|nb: u32| #[trigger]
            row.filter(is_real()).contains(nb) <==> row.contains(nb) && nb != PAD_U32,
    decreases row.len(),
{
    reveal(Seq::filter);
    if row.len() > 0 {
        let rest = row.drop_last();
        lemma_real(rest);
        let a = rest.filter(is_real());
        let b = row.filter(is_real());
        assert forall|nb: u32| #[trigger] b.contains(nb) <==> row.contains(nb) && nb != PAD_U32 by {
            if a.contains(nb) {
                let i = choose|i: int| 0 <= i < a.len() && a[i] == nb;
                assert(b[i] == nb);
                let j = choose|j: int| 0 <= j < rest.len() && rest[j] == nb;
                assert(row[j] == nb);
            }
            if row.contains(nb) && nb != PAD_U32 {
                let j = choose|j: int| 0 <= j < row.len() && row[j] == nb;
                if j < rest.len() {
                    assert(rest[j] == nb);
                    assert(a.contains(nb));
                } else {
                    assert(b[a.len() as int] == nb);
                }
            }
            if b.contains(nb) && !a.contains(nb) {
                let i = choose|i: int| 0 <= i < b.len() && b[i] == nb;
                if i < a.len() {
                    assert(a[i] == nb);
                }
                assert(row[row.len() - 1] == nb);
            }
        }
    }
}

/// The ids of candidates.
pub open spec fn ids(found: Seq<Candidate>) -> Seq<u32> {
    Seq::new(found.len(), |i: int| found[i].id)
}

/// The ids of candidates.
pub fn ids_of(found: &Vec<Candidate>) -> (r: Vec<u32>)
    ensures
        r@ == ids(found@),
{
    let mut r: Vec<u32> = Vec::new();
    let mut i: usize = 0;
    while i < found.len()
        invariant
            i <= found@.len(),
            r@.len() == i,
            forall|j: int| 0 <= j < i ==> #[trigger] r@[j] == found@[j].id,
        decreases found@.len() - i,
    {
        r.push(found[i].id);
        i = i + 1;
    }
    assert(r@ =~= ids(found@));
    r
}

/// An index as one query searches it.
pub struct QuerySpace<'a, 'b, D: Distance> {
    pub index: &'b DiskANN<'a, D>,
    pub query: &'b [u32],
}

impl<'a, 'b, D: Distance> SearchSpace for QuerySpace<'a, 'b, D> {
    open spec fn holds(&self, id: u32) -> bool {
        self.index.valid() && self.query@.len() == self.index.dim && id < self.index.num_vectors
    }

    open spec fn dist_of(&self, id: u32) -> u32 {
        self.index.dist.eval_spec(self.query@, self.index.vector(id as int))
    }

    open spec fn links_of(&self, id: u32) -> Seq<u32> {
        self.index.links(id as int)
    }

    open spec fn keeps(&self, id: u32) -> bool {
        true
    }

    open spec fn scaled(&self, dist: u32, factor: u32) -> u32 {
        self.index.dist.product_spec(dist, factor)
    }

    fn distance(&self, id: u32) -> (d: u32) {
        proof {
            self.index.lemma_has(id as int);
        }
        self.index.distance_to(self.query, id as usize)
    }

    fn neighbors(&self, id: u32) -> (r: Vec<u32>) {
        proof {
            self.index.lemma_has(id as int);
        }
        self.index.real_neighbors(id)
    }

    fn keep(&self, id: u32) -> (r: bool) {
        true
    }

    fn scale(&self, dist: u32, factor: u32) -> (r: u32) {
        self.index.dist.product(dist, factor)
    }
}

/// The neighbours of a valid index are among its vectors.
pub proof fn links_are_sound<D: Distance>(index: &DiskANN<D>, id: int)
    requires
        index.valid(),
        0 <= id < index.num_vectors,
    ensures
        forall|i: int| 0 <= i < index.links(id).len() ==> #[trigger] index.links(id)[i] < index.num_vectors,
{
    lemma_real(index.row(id));
    assert(index.row_is_sound(id));
    let links = index.links(id);
    assert forall|i: int| 0 <= i < links.len() implies #[trigger] links[i] < index.num_vectors by {
        assert(links.contains(links[i]));
        let row = index.row(id);
        let c = choose|c: int| 0 <= c < row.len() && row[c] == links[i];
        assert(index.row(id)[c] == PAD_U32 || index.row(id)[c] < index.num_vectors);
    }
}

pub proof fn lemma_query_space_closed<D: Distance>(space: &QuerySpace<D>)
    ensures
        beam::is_closed(space),
{
    assert forall|id: u32, i: int|
        space.holds(id) && 0 <= i < space.links_of(id).len() implies space.holds(
        #[trigger] space.links_of(id)[i],
    ) by {
        links_are_sound(space.index, id as int);
    }
}

impl<'a, D: Distance> DiskANN<'a, D> {
    /// What a search of this index returns.
    pub open spec fn search_result(
        &self,
        query: &[u32],
        k: int,
        beam_width: int,
        t: Trace,
        r: Seq<Candidate>,
    ) -> bool {
        beam::search_outcome(
            &QuerySpace { index: self, query },
            seq![self.medoid_id],
            beam_width,
            k,
            beam::unbounded(),
            t,
            r,
        )
    }

    /// Searches from the medoid with a beam of `beam_width`; the `k` best of the beam,
    /// nearest first, with their distances.
    pub fn search_with_dists(&self, query: &[u32], k: usize, beam_width: usize) -> (r: Vec<
        Candidate,
    >)
        requires
            self.valid(),
            query@.len() == self.dim,
        ensures
            exists|t: Trace| #[trigger]
                self.search_result(query, k as int, beam_width as int, t, r@),
    {
        let space = QuerySpace { index: self, query };
        let starts: Vec<u32> = vec![self.medoid_id];
        proof {
            lemma_query_space_closed(&space);
            assert(starts@ =~= seq![self.medoid_id]);
        }
        let config = BeamSearchConfig::default();
        let r = beam_search(&space, starts.as_slice(), beam_width, k, config);
        proof {
            let t = choose|t: Trace| #[trigger]
                beam::search_outcome(
                    &space,
                    starts@,
                    beam_width as int,
                    k as int,
                    config,
                    t,
                    r@,
                );
            assert(self.search_result(query, k as int, beam_width as int, t, r@));
        }
        r
    }

    /// The ids that `search_with_dists` returns, in the same order.
    pub fn search(&self, query: &[u32], k: usize, beam_width: usize) -> (r: Vec<u32>)
        requires
            self.valid(),
            query@.len() == self.dim,
        ensures
            exists|t: Trace, found: Seq<Candidate>| #[trigger]
                self.search_result(query, k as int, beam_width as int, t, found) && r@ == ids(
                    found,
                ),
    {
        let found = self.search_with_dists(query, k, beam_width);
        ids_of(&found)
    }
}

/// The answers of a search are at most `k` vectors of the index, none twice, each with
/// its own distance from the query; nearest first, where the distances are numbers.
pub proof fn answers_are_vectors<D: Distance>(
    index: &DiskANN<D>,
    query: &[u32],
    k: int,
    beam_width: int,
    t: Trace,
    r: Seq<Candidate>,
)
    requires
        k >= 0,
        index.valid(),
        query@.len() == index.dim,
        index.search_result(query, k, beam_width, t, r),
    ensures
        r.len() <= k,
        candidate::distinct(r),
        forall|i: int|
            0 <= i < r.len() ==> (#[trigger] r[i]).id < index.num_vectors && r[i].dist
                == index.dist.eval_spec(query@, index.vector(r[i].id as int)),
        (forall|id: int|
            0 <= id < index.num_vectors ==> !word::is_nan(
                index.dist.eval_spec(query@, #[trigger] index.vector(id)),
            )) ==> beam::in_order(r),
{
    let space = QuerySpace { index, query };
    lemma_query_space_closed(&space);
    beam::answers_are_sound(
        &space,
        seq![index.medoid_id],
        beam_width,
        k,
        beam::unbounded(),
        t,
        r,
    );
    if forall|id: int|
        0 <= id < index.num_vectors ==> !word::is_nan(
            index.dist.eval_spec(query@, #[trigger] index.vector(id)),
        ) {
        assert forall|id: u32| space.holds(id) implies !word::is_nan(
            #[trigger] space.dist_of(id),
        ) by {
            assert(!word::is_nan(index.dist.eval_spec(query@, index.vector(id as int))));
        }
    }
}

/// Where the header record stands in the bytes of an index. An index begins with its
/// magic word and its version, or, in the older layout, right away with the length of
/// the record.
pub open spec fn metadata_span(b: Seq<u8>) -> Result<(int, int), Fault> {
    let tagged = bytes::word_at(b, 0) == CORE_MAGIC;
    let at = if tagged {
        8int
    } else {
        0
    };
    let length = bytes::le_value(b.subrange(at, at + 8));
    if b.len() < 8 {
        Err(Fault::NoMetadataLength)
    } else if tagged && b.len() < 16 {
        Err(Fault::NoHeader)
    } else if tagged && bytes::word_at(b, 4) != CORE_FORMAT_VERSION {
        Err(Fault::UnsupportedVersion { version: bytes::word_at(b, 4) })
    } else if b.len() < at + 8 + length {
        Err(Fault::NoMetadata)
    } else {
        Ok((at + 8, at + 8 + length as int))
    }
}

/// Where the header record stands in an index file, which is read piece by piece: its
/// length is checked against the size of the file and the room before the vectors.
pub open spec fn file_span(b: Seq<u8>) -> Result<(int, int), DiskAnnError> {
    let tagged = bytes::word_at(b, 0) == CORE_MAGIC;
    let at = if tagged {
        8int
    } else {
        0
    };
    let length = bytes::le_value(b.subrange(at, at + 8));
    if b.len() < 4 || (tagged && b.len() < 8) {
        Err(DiskAnnError::UnexpectedEof)
    } else if tagged && bytes::word_at(b, 4) != CORE_FORMAT_VERSION {
        Err(
            DiskAnnError::IndexError(
                Fault::UnsupportedVersion { version: bytes::word_at(b, 4) },
            ),
        )
    } else if b.len() < at + 8 {
        Err(DiskAnnError::UnexpectedEof)
    } else if length > VECTORS_OFFSET || at + 8 + length > b.len() {
        Err(
            DiskAnnError::IndexError(
                Fault::InvalidMetadataLength { length: length as u64, file_size: b.len() as u64 },
            ),
        )
    } else {
        Ok((at + 8, at + 8 + length as int))
    }
}

/// The header fields of an index.
pub struct Metadata {
    pub dim: usize,
    pub num_vectors: usize,
    pub max_degree: usize,
    pub medoid_id: u32,
    pub vectors_offset: u64,
    pub adjacency_offset: u64,
    pub distance_name: String,
}

impl Metadata {
    /// The header as a record.
    pub open spec fn record(&self) -> Seq<u8> {
        wire::metadata_bytes(
            self.dim,
            self.num_vectors,
            self.max_degree,
            self.medoid_id,
            self.vectors_offset,
            self.adjacency_offset,
            self.distance_name@,
        )
    }
}

/// Reads a header record: it succeeds when the bytes start with one.
fn decode_metadata(md: &[u8]) -> (r: Result<Metadata, DiskAnnError>)
    ensures
        decoded(md@, r),
{
    match wire::deserialize_metadata(md) {
        Ok(m) => Ok(
            Metadata {
                dim: m.0,
                num_vectors: m.1,
                max_degree: m.2,
                medoid_id: m.3,
                vectors_offset: m.4,
                adjacency_offset: m.5,
                distance_name: m.6,
            },
        ),
        Err(e) => {
            let r: Result<Metadata, DiskAnnError> = Err(DiskAnnError::Bincode(e));
            assert forall|m: Metadata| !wire::begins_with(md@, #[trigger] m.record()) by {}
            r
        },
    }
}

/// Reading a header record from `md` gives `r`.
pub open spec fn decoded(md: Seq<u8>, r: Result<Metadata, DiskAnnError>) -> bool {
    match r {
        Ok(m) => wire::begins_with(md, m.record()),
        Err(e) => e is Bincode && forall|m: Metadata|
            !wire::begins_with(md, #[trigger] m.record()),
    }
}

/// Reading the header of an index held in memory gives `r`.
pub open spec fn parsed(b: Seq<u8>, r: Result<Metadata, DiskAnnError>) -> bool {
    match metadata_span(b) {
        Err(fault) => r is Err && r->Err_0 == DiskAnnError::IndexError(fault),
        Ok((from, to)) => decoded(b.subrange(from, to), r),
    }
}

/// Reading the header of an index file gives `r`.
pub open spec fn opened(b: Seq<u8>, r: Result<Metadata, DiskAnnError>) -> bool {
    match file_span(b) {
        Err(e) => r is Err && r->Err_0 == e,
        Ok((from, to)) => decoded(b.subrange(from, to), r),
    }
}

/// Reads the header of an index held in memory.
pub fn parse_metadata(b: &[u8]) -> (r: Result<Metadata, DiskAnnError>)
    ensures
        parsed(b@, r),
{
    let len: usize = b.len();
    if len < 8 {
        return Err(DiskAnnError::IndexError(Fault::NoMetadataLength));
    }
    let at: usize = if bytes::read_u32(b, 0) == CORE_MAGIC {
        if len < 16 {
            return Err(DiskAnnError::IndexError(Fault::NoHeader));
        }
        let version: u32 = bytes::read_u32(b, 4);
        if version != CORE_FORMAT_VERSION {
            return Err(DiskAnnError::IndexError(Fault::UnsupportedVersion { version }));
        }
        8
    } else {
        0
    };
    let length: u64 = bytes::read_u64(b, at);
    if length > (len - at - 8) as u64 {
        return Err(DiskAnnError::IndexError(Fault::NoMetadata));
    }
    decode_metadata(vstd::slice::slice_subrange(b, at + 8, at + 8 + length as usize))
}

/// Reads the header of an index file.
pub fn parse_file_metadata(b: &[u8]) -> (r: Result<Metadata, DiskAnnError>)
    ensures
        opened(b@, r),
{
    let len: usize = b.len();
    if len < 4 {
        return Err(DiskAnnError::UnexpectedEof);
    }
    let at: usize = if bytes::read_u32(b, 0) == CORE_MAGIC {
        if len < 8 {
            return Err(DiskAnnError::UnexpectedEof);
        }
        let version: u32 = bytes::read_u32(b, 4);
        if version != CORE_FORMAT_VERSION {
            return Err(DiskAnnError::IndexError(Fault::UnsupportedVersion { version }));
        }
        8
    } else {
        0
    };
    if len < at + 8 {
        return Err(DiskAnnError::UnexpectedEof);
    }
    let length: u64 = bytes::read_u64(b, at);
    if length > VECTORS_OFFSET || length > (len - at - 8) as u64 {
        return Err(
            DiskAnnError::IndexError(
                Fault::InvalidMetadataLength { length, file_size: len as u64 },
            ),
        );
    }
    decode_metadata(vstd::slice::slice_subrange(b, at + 8, at + 8 + length as usize))
}

impl<'a, D: Distance> DiskANN<'a, D> {
    /// The bytes of the index carry its header. So it is with every index that was built
    /// or loaded.
    pub open spec fn is_headed(&self) -> bool {
        &&& self.storage@.len() <= usize::MAX
        &&& metadata_span(self.storage@) matches Ok((from, to)) && wire::begins_with(
            self.storage@.subrange(from, to),
            self.header_record(),
        )
    }

    /// The two indexes have the same header, bytes and metric.
    pub open spec fn is_same<'c>(&self, other: &DiskANN<'c, D>) -> bool {
        &&& self.dim == other.dim
        &&& self.num_vectors == other.num_vectors
        &&& self.max_degree == other.max_degree
        &&& self.distance_name@ == other.distance_name@
        &&& self.medoid_id == other.medoid_id
        &&& self.vectors_offset == other.vectors_offset
        &&& self.adjacency_offset == other.adjacency_offset
        &&& self.storage@ == other.storage@
        &&& self.dist == other.dist
    }

    /// The index has the header, the bytes and the metric.
    pub open spec fn is_made_of(&self, m: Metadata, b: Seq<u8>, dist: D) -> bool {
        &&& self.dim == m.dim
        &&& self.num_vectors == m.num_vectors
        &&& self.max_degree == m.max_degree
        &&& self.distance_name == m.distance_name
        &&& self.medoid_id == m.medoid_id
        &&& self.vectors_offset == m.vectors_offset
        &&& self.adjacency_offset == m.adjacency_offset
        &&& self.storage@ == b
        &&& self.dist == dist
    }

    /// Loading an index from bytes whose header reads as `header` gives `r`.
    pub open spec fn loaded(
        header: Result<Metadata, DiskAnnError>,
        b: Seq<u8>,
        dist: D,
        r: Result<Self, DiskAnnError>,
    ) -> bool {
        match header {
            Ok(m) => r is Ok && r->Ok_0.is_made_of(m, b, dist),
            Err(e) => r is Err && r->Err_0 == e,
        }
    }

    fn with_header(m: Metadata, storage: Storage<'a>, dist: D) -> (r: Self)
        ensures
            r.is_made_of(m, storage@, dist),
    {
        DiskANN {
            dim: m.dim,
            num_vectors: m.num_vectors,
            max_degree: m.max_degree,
            distance_name: m.distance_name,
            medoid_id: m.medoid_id,
            vectors_offset: m.vectors_offset,
            adjacency_offset: m.adjacency_offset,
            storage,
            dist,
        }
    }

    /// Loads an index from a buffer of its own.
    pub fn from_bytes(b: Vec<u8>, dist: D) -> (r: Result<Self, DiskAnnError>)
        ensures
            exists|header: Result<Metadata, DiskAnnError>| #[trigger]
                parsed(b@, header) && Self::loaded(header, b@, dist, r),
    {
        let header = parse_metadata(b.as_slice());
        let ghost h = header;
        match header {
            Ok(m) => {
                let r: Result<Self, DiskAnnError> = Ok(
                    Self::with_header(m, Storage::Owned(b), dist),
                );
                assert(parsed(b@, h) && Self::loaded(h, b@, dist, r));
                r
            },
            Err(e) => {
                let r: Result<Self, DiskAnnError> = Err(e);
                assert(parsed(b@, h) && Self::loaded(h, b@, dist, r));
                r
            },
        }
    }

    /// Loads an index from a buffer that other readers share.
    pub fn from_shared_bytes(b: Arc<[u8]>, dist: D) -> (r: Result<Self, DiskAnnError>)
        ensures
            exists|header: Result<Metadata, DiskAnnError>| #[trigger]
                parsed(b@, header) && Self::loaded(header, b@, dist, r),
    {
        let header = parse_metadata(&*b);
        let ghost h = header;
        let ghost all = b@;
        match header {
            Ok(m) => {
                let r: Result<Self, DiskAnnError> = Ok(
                    Self::with_header(m, Storage::Shared(b), dist),
                );
                assert(parsed(all, h) && Self::loaded(h, all, dist, r));
                r
            },
            Err(e) => {
                let r: Result<Self, DiskAnnError> = Err(e);
                assert(parsed(all, h) && Self::loaded(h, all, dist, r));
                r
            },
        }
    }

    /// Opens an index whose file is mapped at `b`.
    pub fn open_index_with(b: &'a [u8], dist: D) -> (r: Result<Self, DiskAnnError>)
        ensures
            exists|header: Result<Metadata, DiskAnnError>| #[trigger]
                opened(b@, header) && Self::loaded(header, b@, dist, r),
    {
        let header = parse_file_metadata(b);
        let ghost h = header;
        match header {
            Ok(m) => {
                let r: Result<Self, DiskAnnError> = Ok(
                    Self::with_header(m, Storage::Mapped(b), dist),
                );
                assert(opened(b@, h) && Self::loaded(h, b@, dist, r));
                r
            },
            Err(e) => {
                let r: Result<Self, DiskAnnError> = Err(e);
                assert(opened(b@, h) && Self::loaded(h, b@, dist, r));
                r
            },
        }
    }
}

/// A row filled up with padding.
pub open spec fn padded(row: Seq<u32>, width: int) -> Seq<u32> {
    Seq::new(
        width as nat,
        |c: int|
            if c < row.len() {
                row[c]
            } else {
                PAD_U32
            },
    )
}

/// The head of a new index: magic word, version, length of the record, record.
pub open spec fn head_bytes(record: Seq<u8>) -> Seq<u8> {
    bytes::le32(CORE_MAGIC) + bytes::le32(CORE_FORMAT_VERSION) + bytes::le_bytes(record.len(), 8)
        + record
}

/// The bytes of an index: its head, the vectors from `VECTORS_OFFSET` on, and the rows
/// right behind them.
pub open spec fn laid_out(
    b: Seq<u8>,
    record: Seq<u8>,
    vectors: Seq<Vec<u32>>,
    graph: Seq<Vec<u32>>,
    dim: int,
    max_degree: int,
) -> bool {
    let n = vectors.len() as int;
    let rows = slot(VECTORS_OFFSET as int, n, dim);
    &&& b.len() == slot(rows, n, max_degree)
    &&& wire::begins_with(b, head_bytes(record))
    &&& forall|i: int|
        0 <= i < n ==> bytes::words_at(b, slot(VECTORS_OFFSET as int, i, dim), dim)
            == (#[trigger] vectors[i])@
    &&& forall|i: int|
        0 <= i < n ==> bytes::words_at(b, slot(rows, i, max_degree), max_degree) == padded(
            (#[trigger] graph[i])@,
            max_degree,
        )
}

fn write_head(record: &Vec<u8>) -> (b: Vec<u8>)
    requires
        record@.len() <= VECTORS_OFFSET - 16,
    ensures
        b@.len() == VECTORS_OFFSET,
        wire::begins_with(b@, head_bytes(record@)),
{
    let mut b: Vec<u8> = Vec::new();
    bytes::push_u32(&mut b, CORE_MAGIC);
    bytes::push_u32(&mut b, CORE_FORMAT_VERSION);
    bytes::push_u64(&mut b, record.len() as u64);
    bytes::push_slice(&mut b, record.as_slice());
    proof {
        bytes::lemma_le32(CORE_MAGIC);
        bytes::lemma_le32(CORE_FORMAT_VERSION);
        bytes::lemma_le64(record@.len() as u64);
        assert(b@ =~= head_bytes(record@));
    }
    let ghost head = b@;
    while b.len() < VECTORS_OFFSET as usize
        invariant
            head.len() <= b@.len() <= VECTORS_OFFSET,
            b@.take(head.len() as int) == head,
        decreases VECTORS_OFFSET - b@.len(),
    {
        b.push(0);
        assert(b@.take(head.len() as int) =~= head);
    }
    b
}

proof fn lemma_kept(a: Seq<u8>, b: Seq<u8>, tail: Seq<u8>, part: Seq<u8>)
    requires
        b == a + tail,
    ensures
        b.take(a.len() as int) == a,
        wire::begins_with(a, part) ==> wire::begins_with(b, part),
{
    assert(b.take(a.len() as int) =~= a);
    if wire::begins_with(a, part) {
        assert(b.take(part.len() as int) =~= a.take(part.len() as int));
    }
}

fn write_vectors(b: &mut Vec<u8>, vectors: &Vec<Vec<u32>>, dim: usize, Ghost(part): Ghost<Seq<u8>>)
    requires
        vamana::uniform(vectors@, dim as int),
        wire::begins_with(old(b)@, part),
    ensures
        final(b)@.len() == slot(old(b)@.len() as int, vectors@.len() as int, dim as int),
        wire::begins_with(final(b)@, part),
        forall|i: int|
            0 <= i < vectors@.len() ==> bytes::words_at(
                final(b)@,
                slot(old(b)@.len() as int, i, dim as int),
                dim as int,
            ) == (#[trigger] vectors@[i])@,
{
    let ghost base = b@.len() as int;
    let mut i: usize = 0;
    assert(slot(base, 0, dim as int) == base) by {
        assert(0 * dim as int * 4 == 0) by (nonlinear_arith);
    }
    while i < vectors.len()
        invariant
            i <= vectors@.len(),
            vamana::uniform(vectors@, dim as int),
            wire::begins_with(b@, part),
            b@.len() == slot(base, i as int, dim as int),
            0 <= base <= b@.len(),
            forall|j: int|
                0 <= j < i ==> bytes::words_at(b@, slot(base, j, dim as int), dim as int)
                    == (#[trigger] vectors@[j])@,
        decreases vectors@.len() - i,
    {
        let ghost before = b@;
        let ghost tail = bytes::word_bytes(vectors@[i as int]@);
        assert(vectors@[i as int]@.len() == dim);
        bytes::push_words(b, vectors[i].as_slice());
        proof {
            bytes::lemma_word_bytes_len(vectors@[i as int]@);
            lemma_kept(before, b@, tail, part);
            lemma_slot(base, i as int, vectors@.len() as int, dim as int);
            bytes::lemma_words_of_word_bytes(before, vectors@[i as int]@, Seq::empty());
            assert(before + tail + Seq::<u8>::empty() =~= b@);
            assert forall|j: int| 0 <= j < i + 1 implies bytes::words_at(
                b@,
                slot(base, j, dim as int),
                dim as int,
            ) == (#[trigger] vectors@[j])@ by {
                if j < i {
                    lemma_slot(base, j, i as int, dim as int);
                    bytes::lemma_words_prefix(before, b@, slot(base, j, dim as int), dim as int);
                }
            }
        }
        i = i + 1;
    }
}

fn write_rows(
    b: &mut Vec<u8>,
    graph: &Vec<Vec<u32>>,
    max_degree: usize,
    Ghost(part): Ghost<Seq<u8>>,
    Ghost(n): Ghost<int>,
)
    requires
        vamana::valid_rows(graph@, n, max_degree as int),
        wire::begins_with(old(b)@, part),
    ensures
        final(b)@.len() == slot(old(b)@.len() as int, graph@.len() as int, max_degree as int),
        wire::begins_with(final(b)@, part),
        final(b)@.take(old(b)@.len() as int) == old(b)@,
        forall|i: int|
            0 <= i < graph@.len() ==> bytes::words_at(
                final(b)@,
                slot(old(b)@.len() as int, i, max_degree as int),
                max_degree as int,
            ) == padded((#[trigger] graph@[i])@, max_degree as int),
{
    let ghost base = b@.len() as int;
    let ghost start = b@;
    let mut i: usize = 0;
    assert(slot(base, 0, max_degree as int) == base) by {
        assert(0 * max_degree as int * 4 == 0) by (nonlinear_arith);
    }
    assert(b@.take(base) =~= start);
    while i < graph.len()
        invariant
            i <= graph@.len(),
            vamana::valid_rows(graph@, n, max_degree as int),
            wire::begins_with(b@, part),
            b@.len() == slot(base, i as int, max_degree as int),
            0 <= base <= b@.len(),
            base == start.len(),
            b@.take(base) == start,
            forall|j: int|
                0 <= j < i ==> bytes::words_at(
                    b@,
                    slot(base, j, max_degree as int),
                    max_degree as int,
                ) == padded((#[trigger] graph@[j])@, max_degree as int),
        decreases graph@.len() - i,
    {
        let ghost before = b@;
        let mut row: Vec<u32> = graph[i].clone();
        assert(vamana::valid_row(graph@[i as int]@, i as int, n, max_degree as int));
        while row.len() < max_degree
            invariant
                row@.len() <= max_degree,
                graph@[i as int]@.len() <= row@.len(),
                forall|c: int|
                    0 <= c < row@.len() ==> #[trigger] row@[c] == padded(
                        graph@[i as int]@,
                        max_degree as int,
                    )[c],
            decreases max_degree - row@.len(),
        {
            row.push(PAD_U32);
        }
        assert(row@ =~= padded(graph@[i as int]@, max_degree as int));
        let ghost tail = bytes::word_bytes(row@);
        bytes::push_words(b, row.as_slice());
        proof {
            bytes::lemma_word_bytes_len(row@);
            lemma_kept(before, b@, tail, part);
            lemma_slot(base, i as int, graph@.len() as int, max_degree as int);
            bytes::lemma_words_of_word_bytes(before, row@, Seq::empty());
            assert(before + tail + Seq::<u8>::empty() =~= b@);
            assert(b@.take(base) =~= before.take(base));
            assert forall|j: int| 0 <= j < i + 1 implies bytes::words_at(
                b@,
                slot(base, j, max_degree as int),
                max_degree as int,
            ) == padded((#[trigger] graph@[j])@, max_degree as int) by {
                if j < i {
                    lemma_slot(base, j, i as int, max_degree as int);
                    bytes::lemma_words_prefix(
                        before,
                        b@,
                        slot(base, j, max_degree as int),
                        max_degree as int,
                    );
                }
            }
        }
        i = i + 1;
    }
}

/// Lays an index out in bytes.
fn write_index(
    record: &Vec<u8>,
    vectors: &Vec<Vec<u32>>,
    graph: &Vec<Vec<u32>>,
    dim: usize,
    max_degree: usize,
) -> (b: Vec<u8>)
    requires
        record@.len() <= VECTORS_OFFSET - 16,
        vamana::uniform(vectors@, dim as int),
        vamana::valid_rows(graph@, vectors@.len() as int, max_degree as int),
    ensures
        laid_out(b@, record@, vectors@, graph@, dim as int, max_degree as int),
{
    let mut b = write_head(record);
    write_vectors(&mut b, vectors, dim, Ghost(head_bytes(record@)));
    let ghost middle = b@;
    write_rows(
        &mut b,
        graph,
        max_degree,
        Ghost(head_bytes(record@)),
        Ghost(vectors@.len() as int),
    );
    proof {
        let n = vectors@.len() as int;
        if n > 0 {
            lemma_slot(middle.len() as int, n - 1, n, max_degree as int);
            lemma_slot(VECTORS_OFFSET as int, n - 1, n, dim as int);
        }
        assert forall|i: int| 0 <= i < n implies bytes::words_at(
            b@,
            slot(VECTORS_OFFSET as int, i, dim as int),
            dim as int,
        ) == (#[trigger] vectors@[i])@ by {
            lemma_slot(VECTORS_OFFSET as int, i, n, dim as int);
            bytes::lemma_words_prefix(
                middle,
                b@,
                slot(VECTORS_OFFSET as int, i, dim as int),
                dim as int,
            );
        }
    }
    b
}

proof fn lemma_padded_links(row: Seq<u32>, width: int)
    requires
        0 <= width,
        forall|i: int| 0 <= i < row.len() ==> #[trigger] row[i] != PAD_U32,
    ensures
        padded(row, width).filter(is_real()) == row.take(
            if width <= row.len() {
                width
            } else {
                row.len() as int
            },
        ),
    decreases width,
{
    reveal(Seq::filter);
    let p = padded(row, width);
    if width > 0 {
        lemma_padded_links(row, width - 1);
        assert(p.drop_last() =~= padded(row, width - 1));
        if width <= row.len() {
            assert(row.take(width) =~= row.take(width - 1).push(row[width - 1]));
        }
    } else {
        assert(p =~= Seq::empty());
        assert(row.take(0) =~= Seq::empty());
    }
}

/// The position of the first vector from `i` on that does not have `dim` components.
pub open spec fn first_mismatch(vectors: Seq<Vec<u32>>, dim: int, i: int) -> Option<int>
    decreases vectors.len() - i,
{
    if i >= vectors.len() {
        None
    } else if vectors[i]@.len() != dim {
        Some(i)
    } else {
        first_mismatch(vectors, dim, i + 1)
    }
}

/// What makes vectors unfit for an index.
pub open spec fn shape_fault(vectors: Seq<Vec<u32>>) -> Option<Fault> {
    if vectors.len() == 0 {
        Some(Fault::NoVectors)
    } else {
        match first_mismatch(vectors, vectors[0]@.len() as int, 0) {
            Some(i) => Some(
                Fault::DimensionMismatch {
                    index: i as usize,
                    found: vectors[i]@.len() as usize,
                    expected: vectors[0]@.len() as usize,
                },
            ),
            None => None,
        }
    }
}

/// Checks that there are vectors, and that they have one number of components.
fn check_shape(vectors: &Vec<Vec<u32>>) -> (r: Option<Fault>)
    ensures
        r == shape_fault(vectors@),
        r is None ==> vectors@.len() > 0 && vamana::uniform(
            vectors@,
            vectors@[0]@.len() as int,
        ),
{
    if vectors.len() == 0 {
        return Some(Fault::NoVectors);
    }
    let dim: usize = vectors[0].len();
    let mut i: usize = 0;
    while i < vectors.len()
        invariant
            i <= vectors@.len(),
            vectors@.len() > 0,
            dim == vectors@[0]@.len(),
            forall|j: int| 0 <= j < i ==> (#[trigger] vectors@[j])@.len() == dim,
            first_mismatch(vectors@, dim as int, 0) == first_mismatch(
                vectors@,
                dim as int,
                i as int,
            ),
        decreases vectors@.len() - i,
    {
        if vectors[i].len() != dim {
            return Some(
                Fault::DimensionMismatch { index: i, found: vectors[i].len(), expected: dim },
            );
        }
        i = i + 1;
    }
    None
}

/// The sizes of an index with these vectors can be told in machine words.
pub open spec fn can_be_laid_out(vectors: Seq<Vec<u32>>, max_degree: int) -> bool {
    &&& vectors.len() < u32::MAX
    &&& vectors.len() > 0 ==> slot(
        slot(VECTORS_OFFSET as int, vectors.len() as int, vectors[0]@.len() as int),
        vectors.len() as int,
        max_degree,
    ) <= usize::MAX
}

impl<'a, D: Distance> DiskANN<'a, D> {
    /// The index holds the vectors, with a graph built over them, and starts its
    /// searches at their medoid.
    pub open spec fn is_built_from(
        &self,
        vectors: &Vec<Vec<u32>>,
        max_degree: int,
        build_beam_width: int,
        alpha: u32,
        dist: D,
    ) -> bool {
        let table = Table { vectors, dist };
        let n = vectors@.len() as int;
        &&& self.valid()
        &&& self.dim == vectors@[0]@.len()
        &&& self.num_vectors == n
        &&& self.max_degree == max_degree
        &&& self.distance_name@ == dist.name_spec()
        &&& self.dist == dist
        &&& self.medoid_id == vamana::nearest_upto(
            dist,
            vectors@,
            metric::mean_of(dist, metric::rows(vectors@)),
            n,
        ).0
        &&& self.vectors_offset == VECTORS_OFFSET
        &&& self.adjacency_offset == slot(VECTORS_OFFSET as int, n, self.dim as int)
        &&& 16 + self.header_record().len() <= VECTORS_OFFSET
        &&& self.storage@.len() == slot(self.adjacency_offset as int, n, max_degree)
        &&& wire::begins_with(self.storage@, head_bytes(self.header_record()))
        &&& forall|i: int| 0 <= i < n ==> self.vector(i) == (#[trigger] vectors@[i])@
        &&& exists|graph: Seq<Vec<u32>>| #[trigger]
            vamana::is_vamana(
                &table,
                build_beam_width,
                max_degree,
                alpha,
                self.medoid_id,
                graph,
            ) && self.has_graph(graph)
    }

    /// The rows hold the graph.
    pub open spec fn has_graph(&self, graph: Seq<Vec<u32>>) -> bool {
        &&& vamana::valid_rows(graph, self.num_vectors as int, self.max_degree as int)
        &&& forall|i: int| 0 <= i < self.num_vectors ==> self.links(i) == (#[trigger] graph[i])@
    }

    /// The header of the index as a record.
    pub open spec fn header_record(&self) -> Seq<u8> {
        wire::metadata_bytes(
            self.dim,
            self.num_vectors,
            self.max_degree,
            self.medoid_id,
            self.vectors_offset,
            self.adjacency_offset,
            self.distance_name@,
        )
    }

    /// Building an index gives `r`.
    pub open spec fn built(
        vectors: &Vec<Vec<u32>>,
        max_degree: int,
        build_beam_width: int,
        alpha: u32,
        dist: D,
        r: Result<Self, DiskAnnError>,
    ) -> bool {
        match shape_fault(vectors@) {
            Some(fault) => r is Err && r->Err_0 == DiskAnnError::IndexError(fault),
            None => if 52 + vstd::utf8::encode_utf8(dist.name_spec()).len() > VECTORS_OFFSET
                - 16 {
                r is Err && r->Err_0 == DiskAnnError::IndexError(Fault::HeaderTooLarge)
            } else {
                r is Ok && r->Ok_0.is_built_from(
                    vectors,
                    max_degree,
                    build_beam_width,
                    alpha,
                    dist,
                )
            },
        }
    }

    /// Builds an index over vectors: neighbours are at most `max_degree` per vector,
    /// and the searches of the construction keep a beam of `build_beam_width`.
    pub fn build_index(
        vectors: &Vec<Vec<u32>>,
        max_degree: usize,
        build_beam_width: usize,
        alpha: u32,
        dist: D,
    ) -> (r: Result<Self, DiskAnnError>)
        requires
            can_be_laid_out(vectors@, max_degree as int),
        ensures
            Self::built(vectors, max_degree as int, build_beam_width as int, alpha, dist, r),
    {
        match check_shape(vectors) {
            Some(fault) => {
                return Err(DiskAnnError::IndexError(fault));
            },
            None => {},
        }
        let name = dist.name();
        let n: usize = vectors.len();
        let dim: usize = vectors[0].len();
        let ghost rows = slot(VECTORS_OFFSET as int, n as int, dim as int);
        proof {
            lemma_slot(VECTORS_OFFSET as int, n - 1, n as int, dim as int);
            lemma_slot(rows, n - 1, n as int, max_degree as int);
            assert(n * dim >= 0 && n * max_degree >= 0) by (nonlinear_arith);
        }
        let table = Table { vectors, dist };
        let medoid_id: u32 = calculate_medoid(vectors, dist) as u32;
        let adjacency_offset: u64 = VECTORS_OFFSET + (n as u64) * (dim as u64) * 4;
        let record: Vec<u8> = match wire::serialize_metadata(
            dim,
            n,
            max_degree,
            medoid_id,
            VECTORS_OFFSET,
            adjacency_offset,
            name.as_str(),
        ) {
            Ok(record) => record,
            Err(e) => {
                return Err(DiskAnnError::Bincode(e));
            },
        };
        proof {
            lemma_record_len(
                dim,
                n,
                max_degree,
                medoid_id,
                VECTORS_OFFSET,
                adjacency_offset,
                name@,
            );
        }
        if record.len() > VECTORS_OFFSET as usize - 16 {
            return Err(DiskAnnError::IndexError(Fault::HeaderTooLarge));
        }
        let graph = build_vamana_graph(&table, max_degree, build_beam_width, alpha, medoid_id);
        let b = write_index(&record, vectors, &graph, dim, max_degree);
        let ghost all = b@;
        let len: usize = b.len();
        let r = DiskANN {
            dim,
            num_vectors: n,
            max_degree,
            distance_name: name,
            medoid_id,
            vectors_offset: VECTORS_OFFSET,
            adjacency_offset,
            storage: Storage::Owned(b),
            dist,
        };
        proof {
            assert(r.storage@ == all);
            assert forall|i: int| 0 <= i < n implies r.vector(i) == (#[trigger] vectors@[i])@ by {}
            assert forall|i: int| 0 <= i < n implies #[trigger] r.row_is_sound(i) && r.links(i)
                == graph@[i]@ by {
                let row = graph@[i]@;
                assert(vamana::valid_row(row, i, n as int, max_degree as int));
                assert(r.row(i) == padded(row, max_degree as int));
                lemma_padded_links(row, max_degree as int);
                assert(row.take(row.len() as int) =~= row);
            }
            assert forall|i: int| 0 <= i < n implies r.links(i) == (#[trigger] graph@[i])@ by {
                assert(r.row_is_sound(i));
            }
            assert(r.has_graph(graph@));
            assert(r.valid());
        }
        Ok(r)
    }

    /// Builds an index with the parameters given.
    pub fn build_index_with_params(vectors: &Vec<Vec<u32>>, dist: D, p: DiskAnnParams) -> (r: Result<
        Self,
        DiskAnnError,
    >)
        requires
            can_be_laid_out(vectors@, p.max_degree as int),
        ensures
            Self::built(
                vectors,
                p.max_degree as int,
                p.build_beam_width as int,
                p.alpha,
                dist,
                r,
            ),
    {
        Self::build_index(vectors, p.max_degree, p.build_beam_width, p.alpha, dist)
    }

    /// Builds an index with a degree of 32, a beam of 256 and a slack of 1.2.
    pub fn build_index_default(vectors: &Vec<Vec<u32>>, dist: D) -> (r: Result<Self, DiskAnnError>)
        requires
            can_be_laid_out(vectors@, BUILD_MAX_DEGREE as int),
        ensures
            Self::built(
                vectors,
                BUILD_MAX_DEGREE as int,
                BUILD_BEAM_WIDTH as int,
                DISKANN_DEFAULT_ALPHA,
                dist,
                r,
            ),
    {
        Self::build_index(
            vectors,
            BUILD_MAX_DEGREE,
            BUILD_BEAM_WIDTH,
            DISKANN_DEFAULT_ALPHA,
            dist,
        )
    }
}

impl<'a, D: Distance + Default> DiskANN<'a, D> {
    /// Builds an index with the default parameters and the default metric.
    pub fn build_index_default_metric(vectors: &Vec<Vec<u32>>) -> (r: Result<Self, DiskAnnError>)
        requires
            can_be_laid_out(vectors@, BUILD_MAX_DEGREE as int),
        ensures
            exists|dist: D| #[trigger]
                call_ensures(D::default, (), dist) && Self::built(
                    vectors,
                    BUILD_MAX_DEGREE as int,
                    BUILD_BEAM_WIDTH as int,
                    DISKANN_DEFAULT_ALPHA,
                    dist,
                    r,
                ),
    {
        let dist = D::default();
        Self::build_index_default(vectors, dist)
    }

    /// Opens an index whose file is mapped at `b` with the default metric.
    pub fn open_index_default_metric(b: &'a [u8]) -> (r: Result<Self, DiskAnnError>)
        ensures
            exists|dist: D, header: Result<Metadata, DiskAnnError>|
                #![trigger call_ensures(D::default, (), dist), opened(b@, header)]
                call_ensures(D::default, (), dist) && opened(b@, header) && Self::loaded(
                    header,
                    b@,
                    dist,
                    r,
                ),
    {
        let dist = D::default();
        Self::open_index_with(b, dist)
    }
}

proof fn lemma_record_len(
    dim: usize,
    num_vectors: usize,
    max_degree: usize,
    medoid_id: u32,
    vectors_offset: u64,
    adjacency_offset: u64,
    name: Seq<char>,
)
    ensures
        wire::metadata_bytes(
            dim,
            num_vectors,
            max_degree,
            medoid_id,
            vectors_offset,
            adjacency_offset,
            name,
        ).len() == 52 + vstd::utf8::encode_utf8(name).len(),
{
    bytes::lemma_le64(dim as u64);
    bytes::lemma_le64(num_vectors as u64);
    bytes::lemma_le64(max_degree as u64);
    bytes::lemma_le32(medoid_id);
    bytes::lemma_le64(vectors_offset);
    bytes::lemma_le64(adjacency_offset);
    bytes::lemma_le_bytes_len(vstd::utf8::encode_utf8(name).len(), 8);
}

/// A built index carries its header, in the place and of the size that files are read by.
pub proof fn built_index_is_headed<D: Distance>(
    index: &DiskANN<D>,
    vectors: &Vec<Vec<u32>>,
    max_degree: int,
    build_beam_width: int,
    alpha: u32,
    dist: D,
)
    requires
        index.is_built_from(vectors, max_degree, build_beam_width, alpha, dist),
    ensures
        index.is_headed(),
        file_span(index.storage@) is Ok,
{
    let b = index.storage@;
    let record = index.header_record();
    lemma_record_len(
        index.dim,
        index.num_vectors,
        index.max_degree,
        index.medoid_id,
        index.vectors_offset,
        index.adjacency_offset,
        index.distance_name@,
    );
    bytes::lemma_le32(CORE_MAGIC);
    bytes::lemma_le32(CORE_FORMAT_VERSION);
    bytes::lemma_pow256();
    bytes::lemma_le_round_trip(record.len(), 8);
    let head = head_bytes(record);
    assert(head.len() == 16 + record.len());
    assert(b.take(head.len() as int) == head);
    assert(b.subrange(0, 4) =~= head.subrange(0, 4));
    assert(head.subrange(0, 4) =~= bytes::le32(CORE_MAGIC));
    assert(b.subrange(4, 8) =~= head.subrange(4, 8));
    assert(head.subrange(4, 8) =~= bytes::le32(CORE_FORMAT_VERSION));
    assert(b.subrange(8, 16) =~= head.subrange(8, 16));
    assert(head.subrange(8, 16) =~= bytes::le_bytes(record.len(), 8));
    let md = b.subrange(16, 16 + record.len() as int);
    assert(md =~= head.subrange(16, 16 + record.len() as int));
    assert(md =~= record);
    assert(md.take(record.len() as int) =~= record);
    assert(wire::begins_with(md, record));
}

/// An index that was loaded carries its header.
pub proof fn loaded_index_is_headed<D: Distance>(
    index: &DiskANN<D>,
    b: Seq<u8>,
    header: Result<Metadata, DiskAnnError>,
    dist: D,
)
    requires
        b.len() <= usize::MAX,
        parsed(b, header) || opened(b, header),
        header is Ok,
        index.is_made_of(header->Ok_0, b, dist),
    ensures
        index.is_headed(),
{
    assert(index.header_record() == header->Ok_0.record());
}

/// Reading the bytes of an index that carries its header gives the index back, from
/// memory and from a file.
pub proof fn headed_index_loads<D: Distance>(
    index: &DiskANN<D>,
    header: Result<Metadata, DiskAnnError>,
    r: Result<DiskANN<D>, DiskAnnError>,
)
    requires
        index.is_headed(),
        parsed(index.storage@, header) || (opened(index.storage@, header) && file_span(
            index.storage@,
        ) is Ok),
        DiskANN::loaded(header, index.storage@, index.dist, r),
    ensures
        r is Ok,
        index.is_same(&r->Ok_0),
        r->Ok_0.is_headed(),
{
    let b = index.storage@;
    let (from, to) = metadata_span(b)->Ok_0;
    let md = b.subrange(from, to);
    assert(decoded(md, header));
    if header is Err {
        let m = Metadata {
            dim: index.dim,
            num_vectors: index.num_vectors,
            max_degree: index.max_degree,
            medoid_id: index.medoid_id,
            vectors_offset: index.vectors_offset,
            adjacency_offset: index.adjacency_offset,
            distance_name: index.distance_name,
        };
        assert(m.record() == index.header_record());
        assert(!wire::begins_with(md, m.record()));
    }
    let m = header->Ok_0;
    wire::metadata_is_unique(
        md,
        index.dim,
        index.num_vectors,
        index.max_degree,
        index.medoid_id,
        index.vectors_offset,
        index.adjacency_offset,
        index.distance_name@,
        m.dim,
        m.num_vectors,
        m.max_degree,
        m.medoid_id,
        m.vectors_offset,
        m.adjacency_offset,
        m.distance_name@,
    );
}

/// Loading the bytes of a built index gives the index back.
pub proof fn built_index_loads<D: Distance>(
    index: &DiskANN<D>,
    vectors: &Vec<Vec<u32>>,
    max_degree: int,
    build_beam_width: int,
    alpha: u32,
    dist: D,
    header: Result<Metadata, DiskAnnError>,
    r: Result<DiskANN<D>, DiskAnnError>,
)
    requires
        index.is_built_from(vectors, max_degree, build_beam_width, alpha, dist),
        parsed(index.storage@, header) || opened(index.storage@, header),
        DiskANN::loaded(header, index.storage@, dist, r),
    ensures
        r is Ok,
        index.is_same(&r->Ok_0),
{
    built_index_is_headed(index, vectors, max_degree, build_beam_width, alpha, dist);
    headed_index_loads(index, header, r);
}

/// Indexes with the same header and bytes hold the same vectors and links, and are
/// searched alike.
pub proof fn same_indexes_answer_alike<D: Distance>(
    a: &DiskANN<D>,
    b: &DiskANN<D>,
    query: &[u32],
    k: int,
    beam_width: int,
    t: Trace,
    r: Seq<Candidate>,
)
    requires
        a.is_same(b),
        a.valid(),
        query@.len() == a.dim,
    ensures
        b.valid(),
        forall|id: int| #[trigger] a.vector(id) == b.vector(id),
        forall|id: int| #[trigger] a.row(id) == b.row(id),
        forall|id: int| #[trigger] a.links(id) == b.links(id),
        a.search_result(query, k, beam_width, t, r) == b.search_result(
            query,
            k,
            beam_width,
            t,
            r,
        ),
{
    lemma_same_valid(a, b);
    let x = QuerySpace { index: a, query };
    let y = QuerySpace { index: b, query };
    assert(beam::same_space(&x, &y));
    lemma_query_space_closed(&x);
    beam::same_spaces_are_searched_alike(
        &x,
        &y,
        seq![a.medoid_id],
        beam_width,
        k,
        beam::unbounded(),
        t,
        r,
    );
}

pub(crate) proof fn lemma_same_valid<D: Distance>(a: &DiskANN<D>, b: &DiskANN<D>)
    requires
        a.is_same(b),
    ensures
        a.valid() == b.valid(),
        forall|id: int| #[trigger] a.vector(id) == b.vector(id),
        forall|id: int| #[trigger] a.row(id) == b.row(id),
        forall|id: int| #[trigger] a.links(id) == b.links(id),
{
    assert forall|id: int| a.row_is_sound(id) == #[trigger] b.row_is_sound(id) by {
        assert(a.row(id) == b.row(id));
    }
    if a.valid() {
        assert forall|id: int| 0 <= id < b.num_vectors implies #[trigger] b.row_is_sound(id) by {
            assert(a.row_is_sound(id));
        }
    }
    if b.valid() {
        assert forall|id: int| 0 <= id < a.num_vectors implies #[trigger] a.row_is_sound(id) by {
            assert(b.row_is_sound(id));
        }
    }
}

proof fn lemma_same_query_spaces<D: Distance>(
    a: &DiskANN<D>,
    b: &DiskANN<D>,
    q1: &[u32],
    q2: &[u32],
)
    requires
        a.is_same(b),
        q1@ == q2@,
    ensures
        beam::same_space(
            &QuerySpace { index: a, query: q1 },
            &QuerySpace { index: b, query: q2 },
        ),
{
    lemma_same_valid(a, b);
}

/// Two searches for one query, of one index or of two with the same content, return the
/// same list.
pub proof fn same_indexes_return_one_list<D: Distance>(
    a: &DiskANN<D>,
    b: &DiskANN<D>,
    q1: &[u32],
    q2: &[u32],
    k: int,
    beam_width: int,
    t1: Trace,
    r1: Seq<Candidate>,
    t2: Trace,
    r2: Seq<Candidate>,
)
    requires
        a.is_same(b),
        a.valid(),
        q1@.len() == a.dim,
        q1@ == q2@,
        a.search_result(q1, k, beam_width, t1, r1),
        b.search_result(q2, k, beam_width, t2, r2),
    ensures
        r1 == r2,
{
    let x = QuerySpace { index: a, query: q1 };
    lemma_same_query_spaces(a, b, q1, q2);
    lemma_query_space_closed(&x);
    beam::searches_agree(
        &x,
        &QuerySpace { index: b, query: q2 },
        seq![a.medoid_id],
        beam_width,
        k,
        beam::unbounded(),
        t1,
        r1,
        t2,
        r2,
    );
}

} // verus!
