//! An index whose vectors carry labels.
use crate::beam;
use crate::beam::BeamSearchConfig;
use crate::beam::SearchSpace;
use crate::beam::Trace;
use crate::beam::beam_search;
use crate::bytes;
use crate::candidate::Candidate;
use crate::error::DiskAnnError;
use crate::error::Fault;
use crate::filter::Filter;
use crate::index;
use crate::index::DiskANN;
use crate::index::DiskAnnParams;
use crate::index::Metadata;
use crate::index::QuerySpace;
use crate::kmeans;
use crate::metric::Distance;
use crate::pq;
use crate::wire;
use std::sync::Arc;
use vstd::prelude::*;

verus! {

/// The pattern of 1.5: a search that gathers answers stops at what is farther than this
/// times the worst of them.
pub const EARLY_STOP: u32 = 0x3fc0_0000;

/// How a filtered search is bounded: the beam widens to four times its width, or ten
/// times the answers asked for, and twice as many nodes may be expanded.
pub open spec fn filtered_config(beam_width: int, k: int) -> BeamSearchConfig {
    let wide = if beam_width * 4 >= k * 10 {
        beam_width * 4
    } else {
        k * 10
    };
    BeamSearchConfig {
        expanded_beam: Some(wide as usize),
        max_iterations: Some((wide * 2) as usize),
        early_term_factor: Some(EARLY_STOP),
    }
}

/// The bounds of a filtered search can be told in machine words.
pub open spec fn can_widen(beam_width: int, k: int) -> bool {
    beam_width * 8 <= usize::MAX && k * 20 <= usize::MAX
}

/// The bounds of a filtered search.
pub fn widen(beam_width: usize, k: usize) -> (r: BeamSearchConfig)
    requires
        can_widen(beam_width as int, k as int),
    ensures
        r == filtered_config(beam_width as int, k as int),
{
    let wide: usize = if beam_width * 4 >= k * 10 {
        beam_width * 4
    } else {
        k * 10
    };
    BeamSearchConfig {
        expanded_beam: Some(wide),
        max_iterations: Some(wide * 2),
        early_term_factor: Some(EARLY_STOP),
    }
}

/// A labelled index as one query searches it.
pub struct LabeledSpace<'a, 'b, D: Distance> {
    pub base: QuerySpace<'a, 'b, D>,
    pub labels: &'b Vec<Vec<u64>>,
    pub filter: &'b Filter,
}

impl<'a, 'b, D: Distance> SearchSpace for LabeledSpace<'a, 'b, D> {
    open spec fn holds(&self, id: u32) -> bool {
        self.base.holds(id)
    }

    open spec fn dist_of(&self, id: u32) -> u32 {
        self.base.dist_of(id)
    }

    open spec fn links_of(&self, id: u32) -> Seq<u32> {
        self.base.links_of(id)
    }

    open spec fn keeps(&self, id: u32) -> bool {
        id < self.labels@.len() && self.filter.accepts(self.labels@[id as int]@)
    }

    open spec fn scaled(&self, dist: u32, factor: u32) -> u32 {
        self.base.scaled(dist, factor)
    }

    fn distance(&self, id: u32) -> (d: u32) {
        self.base.distance(id)
    }

    fn neighbors(&self, id: u32) -> (r: Vec<u32>) {
        self.base.neighbors(id)
    }

    fn keep(&self, id: u32) -> (r: bool) {
        (id as usize) < self.labels.len() && self.filter.matches(self.labels[id as usize].as_slice())
    }

    fn scale(&self, dist: u32, factor: u32) -> (r: u32) {
        self.base.scale(dist, factor)
    }
}

pub proof fn lemma_labeled_space_closed<D: Distance>(space: &LabeledSpace<D>)
    ensures
        beam::is_closed(space),
{
    index::lemma_query_space_closed(&space.base);
    assert forall|id: u32, i: int|
        space.holds(id) && 0 <= i < space.links_of(id).len() implies space.holds(
        #[trigger] space.links_of(id)[i],
    ) by {
        assert(space.base.holds(space.base.links_of(id)[i]));
    }
}

/// Labels, row after row, as 64-bit numbers.
pub open spec fn label_bytes(labels: Seq<Vec<u64>>, upto: int) -> Seq<u8>
    decreases upto,
{
    if upto <= 0 {
        Seq::empty()
    } else {
        label_bytes(labels, upto - 1) + bytes::long_bytes(labels[upto - 1]@)
    }
}

/// Labels in bytes: the length of their head, the head, and the rows.
pub open spec fn labels_record(labels: Seq<Vec<u64>>, num_fields: usize) -> Seq<u8> {
    let head = wire::label_head_bytes(labels.len() as usize, num_fields);
    bytes::le_bytes(head.len(), 8) + head + label_bytes(labels, labels.len() as int)
}

/// Row `i` of labels with `fields` fields in flat data.
pub open spec fn label_row(data: Seq<u8>, i: int, fields: int) -> Seq<u64> {
    bytes::longs_at(data, 8 * (i * fields), fields)
}

/// Writes labels.
pub fn serialize_labels(labels: &Vec<Vec<u64>>, num_fields: usize) -> (out: Vec<u8>)
    ensures
        out@ == labels_record(labels@, num_fields),
{
    let head: Vec<u8> = match wire::serialize_label_head(labels.len(), num_fields) {
        Ok(head) => head,
        Err(_) => Vec::new(),
    };
    let mut out: Vec<u8> = Vec::new();
    bytes::push_u64(&mut out, head.len() as u64);
    bytes::push_slice(&mut out, head.as_slice());
    let ghost start = out@;
    assert(start =~= bytes::le_bytes(head@.len(), 8) + head@);
    assert(out@ =~= start + label_bytes(labels@, 0));
    let mut i: usize = 0;
    while i < labels.len()
        invariant
            i <= labels@.len(),
            out@ == start + label_bytes(labels@, i as int),
        decreases labels@.len() - i,
    {
        bytes::push_longs(&mut out, labels[i].as_slice());
        i = i + 1;
        assert(out@ =~= start + label_bytes(labels@, i as int));
    }
    out
}

/// Reading rows of labels from flat data gives `r`: there must be enough of it.
pub open spec fn rows_read(
    data: Seq<u8>,
    num_vectors: usize,
    num_fields: usize,
    r: Result<(Vec<Vec<u64>>, usize), DiskAnnError>,
) -> bool {
    if data.len() < 8 * (num_vectors * num_fields) {
        r is Err && r->Err_0 == DiskAnnError::IndexError(Fault::LabelsTruncated)
    } else {
        &&& r is Ok
        &&& r->Ok_0.1 == num_fields
        &&& r->Ok_0.0@.len() == num_vectors
        &&& forall|i: int|
            0 <= i < num_vectors ==> (#[trigger] r->Ok_0.0@[i])@ == label_row(
                data,
                i,
                num_fields as int,
            )
    }
}

/// Reading labels from `b` gives `r`, with `n` vectors and `fields` fields at their head.
pub open spec fn labels_read(
    b: Seq<u8>,
    n: usize,
    fields: usize,
    r: Result<(Vec<Vec<u64>>, usize), DiskAnnError>,
) -> bool {
    let length = bytes::le_value(b.subrange(0, 8)) as int;
    if b.len() < 8 {
        r is Err && r->Err_0 == DiskAnnError::IndexError(Fault::NoLabels)
    } else if b.len() < 8 + length {
        r is Err && r->Err_0 == DiskAnnError::IndexError(Fault::NoLabelHead)
    } else {
        let head = b.subrange(8, 8 + length);
        ||| (r is Err && r->Err_0 is Bincode && forall|n: usize, f: usize|
            !wire::begins_with(head, #[trigger] wire::label_head_bytes(n, f)))
        ||| (wire::begins_with(head, wire::label_head_bytes(n, fields)) && rows_read(
            b.skip(8 + length),
            n,
            fields,
            r,
        ))
    }
}

fn read_rows(data: &[u8], num_vectors: usize, num_fields: usize) -> (r: Result<
    (Vec<Vec<u64>>, usize),
    DiskAnnError,
>)
    ensures
        rows_read(data@, num_vectors, num_fields, r),
{
    let len: usize = data.len();
    let mut labels: Vec<Vec<u64>> = Vec::new();
    let mut offset: usize = 0;
    let mut i: usize = 0;
    assert(0 * num_fields == 0) by (nonlinear_arith);
    while i < num_vectors
        invariant
            i <= num_vectors,
            len == data@.len(),
            offset == 8 * (i * num_fields),
            offset <= len,
            labels@.len() == i,
            forall|j: int|
                0 <= j < i ==> (#[trigger] labels@[j])@ == label_row(data@, j, num_fields as int),
        decreases num_vectors - i,
    {
        proof {
            pq::lemma_flat_bounds(i as int, num_vectors as int, num_fields as int);
        }
        if num_fields > (len - offset) / 8 {
            return Err(DiskAnnError::IndexError(Fault::LabelsTruncated));
        }
        labels.push(bytes::read_longs(data, offset, num_fields));
        offset = offset + 8 * num_fields;
        i = i + 1;
    }
    Ok((labels, num_fields))
}

/// Reads labels.
pub fn deserialize_labels(b: &[u8]) -> (r: Result<(Vec<Vec<u64>>, usize), DiskAnnError>)
    ensures
        exists|n: usize, fields: usize| #[trigger] labels_read(b@, n, fields, r),
{
    let len: usize = b.len();
    if len < 8 {
        let r: Result<(Vec<Vec<u64>>, usize), DiskAnnError> = Err(
            DiskAnnError::IndexError(Fault::NoLabels),
        );
        assert(labels_read(b@, 0, 0, r));
        return r;
    }
    let length: u64 = bytes::read_u64(b, 0);
    if length > (len - 8) as u64 {
        let r: Result<(Vec<Vec<u64>>, usize), DiskAnnError> = Err(
            DiskAnnError::IndexError(Fault::NoLabelHead),
        );
        assert(labels_read(b@, 0, 0, r));
        return r;
    }
    let split: usize = 8 + length as usize;
    let head = vstd::slice::slice_subrange(b, 8, split);
    match wire::deserialize_label_head(head) {
        Ok((n, fields)) => {
            let data = vstd::slice::slice_subrange(b, split, len);
            assert(data@ =~= b@.skip(split as int));
            let r = read_rows(data, n, fields);
            assert(labels_read(b@, n, fields, r));
            r
        },
        Err(e) => {
            let r: Result<(Vec<Vec<u64>>, usize), DiskAnnError> = Err(DiskAnnError::Bincode(e));
            assert(labels_read(b@, 0, 0, r));
            r
        },
    }
}

proof fn lemma_label_bytes(labels: Seq<Vec<u64>>, fields: int, upto: int, i: int, b: Seq<u8>)
    requires
        0 <= i < upto <= labels.len(),
        0 <= fields,
        forall|j: int| 0 <= j < labels.len() ==> (#[trigger] labels[j])@.len() == fields,
    ensures
        label_bytes(labels, upto).len() == 8 * (upto * fields),
        label_row(label_bytes(labels, upto) + b, i, fields) == labels[i]@,
    decreases upto,
{
    pq::lemma_flat_bounds(upto - 1, upto, fields);
    pq::lemma_flat_bounds(i, upto, fields);
    let before = label_bytes(labels, upto - 1);
    let last = bytes::long_bytes(labels[upto - 1]@);
    bytes::lemma_long_bytes_len(labels[upto - 1]@);
    assert(labels[upto - 1]@.len() == fields);
    if upto > 1 {
        let k = if i < upto - 1 {
            i
        } else {
            0
        };
        lemma_label_bytes(labels, fields, upto - 1, k, last + b);
    } else {
        assert(0 * fields == 0) by (nonlinear_arith);
    }
    assert(label_bytes(labels, upto) + b =~= before + (last + b));
    if i == upto - 1 {
        bytes::lemma_longs_of_long_bytes(before, labels[i]@, b);
        assert(before + last + b =~= label_bytes(labels, upto) + b);
    }
}

/// Labels with one number of fields are read back as they were written.
pub proof fn labels_read_back(
    labels: Seq<Vec<u64>>,
    num_fields: usize,
    n: usize,
    fields: usize,
    r: Result<(Vec<Vec<u64>>, usize), DiskAnnError>,
)
    requires
        labels.len() <= usize::MAX,
        forall|j: int| 0 <= j < labels.len() ==> (#[trigger] labels[j])@.len() == num_fields,
        labels_read(labels_record(labels, num_fields), n, fields, r),
    ensures
        r is Ok,
        r->Ok_0.1 == num_fields,
        r->Ok_0.0@.len() == labels.len(),
        forall|i: int| 0 <= i < labels.len() ==> (#[trigger] r->Ok_0.0@[i])@ == labels[i]@,
{
    let b = labels_record(labels, num_fields);
    let count = labels.len() as usize;
    let head = wire::label_head_bytes(count, num_fields);
    let rows = label_bytes(labels, labels.len() as int);
    bytes::lemma_le64(count as u64);
    bytes::lemma_le64(num_fields as u64);
    bytes::lemma_pow256();
    bytes::lemma_le_round_trip(head.len(), 8);
    assert(b.subrange(0, 8) =~= bytes::le_bytes(head.len(), 8));
    assert(b.subrange(8, 8 + head.len() as int) =~= head);
    assert(b.skip(8 + head.len() as int) =~= rows);
    assert(head.take(head.len() as int) =~= head);
    assert(wire::begins_with(head, wire::label_head_bytes(count, num_fields)));
    assert(wire::begins_with(head, wire::label_head_bytes(n, fields)));
    wire::lemma_same_u64(
        head,
        count as u64,
        bytes::le64(num_fields as u64),
        n as u64,
        bytes::le64(fields as u64),
    );
    let none = Seq::<u8>::empty();
    assert(bytes::le64(num_fields as u64) + none =~= bytes::le64(num_fields as u64));
    assert(bytes::le64(fields as u64) + none =~= bytes::le64(fields as u64));
    wire::lemma_same_u64(head.skip(8), num_fields as u64, none, fields as u64, none);
    assert(rows + none =~= rows);
    if labels.len() > 0 {
        lemma_label_bytes(labels, num_fields as int, labels.len() as int, 0, none);
    } else {
        assert(0 * num_fields == 0) by (nonlinear_arith);
    }
    assert forall|i: int| 0 <= i < labels.len() implies (#[trigger] r->Ok_0.0@[i])@ == labels[i]@ by {
        lemma_label_bytes(labels, num_fields as int, labels.len() as int, i, none);
    }
}

/// An index with labels for its vectors.
pub struct FilteredDiskANN<'a, D: Distance> {
    pub index: DiskANN<'a, D>,
    /// The labels of each vector.
    pub labels: Vec<Vec<u64>>,
    /// Labels of each vector.
    pub num_fields: usize,
}

/// The first row from `i` on that does not have `fields` fields.
pub open spec fn first_odd_row(labels: Seq<Vec<u64>>, fields: int, i: int) -> Option<int>
    decreases labels.len() - i,
{
    if i >= labels.len() {
        None
    } else if labels[i]@.len() != fields {
        Some(i)
    } else {
        first_odd_row(labels, fields, i + 1)
    }
}

/// Fields of the first row.
pub open spec fn field_count(labels: Seq<Vec<u64>>) -> int {
    if labels.len() > 0 {
        labels[0]@.len() as int
    } else {
        0
    }
}

/// What makes labels unfit for `vectors` vectors.
pub open spec fn label_fault(labels: Seq<Vec<u64>>, vectors: int) -> Option<Fault> {
    if labels.len() != vectors {
        Some(Fault::LabelCount { labels: labels.len() as usize, vectors: vectors as usize })
    } else {
        match first_odd_row(labels, field_count(labels), 0) {
            Some(i) => Some(
                Fault::LabelFields {
                    index: i as usize,
                    found: labels[i]@.len() as usize,
                    expected: field_count(labels) as usize,
                },
            ),
            None => None,
        }
    }
}

/// Checks labels for `vectors` vectors.
fn check_labels(labels: &Vec<Vec<u64>>, vectors: usize) -> (r: (Option<Fault>, usize))
    ensures
        r.0 == label_fault(labels@, vectors as int),
        r.1 == field_count(labels@),
        r.0 is None ==> forall|i: int|
            0 <= i < labels@.len() ==> (#[trigger] labels@[i])@.len() == r.1,
{
    let fields: usize = if labels.len() > 0 {
        labels[0].len()
    } else {
        0
    };
    if labels.len() != vectors {
        return (Some(Fault::LabelCount { labels: labels.len(), vectors }), fields);
    }
    let mut i: usize = 0;
    while i < labels.len()
        invariant
            i <= labels@.len(),
            labels@.len() == vectors,
            fields == field_count(labels@),
            forall|j: int| 0 <= j < i ==> (#[trigger] labels@[j])@.len() == fields,
            first_odd_row(labels@, fields as int, 0) == first_odd_row(
                labels@,
                fields as int,
                i as int,
            ),
        decreases labels@.len() - i,
    {
        if labels[i].len() != fields {
            return (
                Some(Fault::LabelFields { index: i, found: labels[i].len(), expected: fields }),
                fields,
            );
        }
        i = i + 1;
    }
    (None, fields)
}

/// How many of the first `upto` rows a filter accepts.
pub open spec fn accepted(labels: Seq<Vec<u64>>, filter: &Filter, upto: int) -> int
    decreases upto,
{
    if upto <= 0 {
        0
    } else {
        accepted(labels, filter, upto - 1) + if filter.accepts(labels[upto - 1]@) {
            1int
        } else {
            0
        }
    }
}

/// The labels as a file gives them: one that ends too early is met while it is read.
pub open spec fn from_file(labels: Result<(Vec<Vec<u64>>, usize), DiskAnnError>) -> Result<
    (Vec<Vec<u64>>, usize),
    DiskAnnError,
> {
    match labels {
        Err(DiskAnnError::IndexError(Fault::NoLabels)) => Err(DiskAnnError::UnexpectedEof),
        Err(DiskAnnError::IndexError(Fault::NoLabelHead)) => Err(DiskAnnError::UnexpectedEof),
        Err(DiskAnnError::IndexError(Fault::LabelsTruncated)) => Err(DiskAnnError::UnexpectedEof),
        _ => labels,
    }
}

/// Reads labels from the bytes of their file.
pub fn load_labels(b: &[u8]) -> (r: Result<(Vec<Vec<u64>>, usize), DiskAnnError>)
    ensures
        exists|
            n: usize,
            fields: usize,
            read: Result<(Vec<Vec<u64>>, usize), DiskAnnError>,
        | #[trigger]
            labels_read(b@, n, fields, read) && r == from_file(read),
{
    let labels = deserialize_labels(b);
    let ghost read = labels;
    let ghost (n, fields) = choose|n: usize, fields: usize| #[trigger]
        labels_read(b@, n, fields, read);
    let r = match labels {
        Err(DiskAnnError::IndexError(Fault::NoLabels)) => Err(DiskAnnError::UnexpectedEof),
        Err(DiskAnnError::IndexError(Fault::NoLabelHead)) => Err(DiskAnnError::UnexpectedEof),
        Err(DiskAnnError::IndexError(Fault::LabelsTruncated)) => Err(DiskAnnError::UnexpectedEof),
        other => other,
    };
    assert(labels_read(b@, n, fields, read) && r == from_file(read));
    r
}

impl<'a, D: Distance> FilteredDiskANN<'a, D> {
    /// The index can be searched, and each vector has its labels.
    pub open spec fn valid(&self) -> bool {
        &&& self.index.valid()
        &&& self.labels@.len() == self.index.num_vectors
        &&& forall|i: int|
            0 <= i < self.labels@.len() ==> (#[trigger] self.labels@[i])@.len() == self.num_fields
    }

    /// Building a labelled index gives `r`.
    pub open spec fn built(
        vectors: &Vec<Vec<u32>>,
        labels: Seq<Vec<u64>>,
        params: DiskAnnParams,
        dist: D,
        base: Result<DiskANN<'a, D>, DiskAnnError>,
        r: Result<Self, DiskAnnError>,
    ) -> bool {
        match label_fault(labels, vectors@.len() as int) {
            Some(fault) => r is Err && r->Err_0 == DiskAnnError::IndexError(fault),
            None => {
                &&& DiskANN::built(
                    vectors,
                    params.max_degree as int,
                    params.build_beam_width as int,
                    params.alpha,
                    dist,
                    base,
                )
                &&& match base {
                    Ok(index) => {
                        &&& r is Ok
                        &&& r->Ok_0.index == index
                        &&& r->Ok_0.labels@ == labels
                        &&& r->Ok_0.num_fields == field_count(labels)
                        &&& r->Ok_0.valid()
                    },
                    Err(e) => r is Err && r->Err_0 == e,
                }
            },
        }
    }

    /// Builds a labelled index.
    pub fn build_with_params(
        vectors: &Vec<Vec<u32>>,
        labels: Vec<Vec<u64>>,
        dist: D,
        params: DiskAnnParams,
    ) -> (r: Result<Self, DiskAnnError>)
        requires
            index::can_be_laid_out(vectors@, params.max_degree as int),
        ensures
            exists|base: Result<DiskANN<'a, D>, DiskAnnError>| #[trigger]
                Self::built(vectors, labels@, params, dist, base, r),
    {
        let ghost rows = labels@;
        let (fault, num_fields) = check_labels(&labels, vectors.len());
        match fault {
            Some(fault) => {
                let r: Result<Self, DiskAnnError> = Err(DiskAnnError::IndexError(fault));
                proof {
                    let base: Result<DiskANN<'a, D>, DiskAnnError> = Err(
                        DiskAnnError::IndexError(fault),
                    );
                    assert(Self::built(vectors, rows, params, dist, base, r));
                }
                return r;
            },
            None => {},
        }
        let base = DiskANN::build_index_with_params(vectors, dist, params);
        let ghost kept = base;
        match base {
            Ok(index) => {
                let r: Result<Self, DiskAnnError> = Ok(
                    FilteredDiskANN { index, labels, num_fields },
                );
                assert(Self::built(vectors, rows, params, dist, kept, r));
                r
            },
            Err(e) => {
                let r: Result<Self, DiskAnnError> = Err(e);
                assert(Self::built(vectors, rows, params, dist, kept, r));
                r
            },
        }
    }

    /// Builds a labelled index with the default parameters.
    pub fn build(vectors: &Vec<Vec<u32>>, labels: Vec<Vec<u64>>, dist: D) -> (r: Result<
        Self,
        DiskAnnError,
    >)
        requires
            index::can_be_laid_out(vectors@, index::DISKANN_DEFAULT_MAX_DEGREE as int),
        ensures
            exists|params: DiskAnnParams, base: Result<DiskANN<'a, D>, DiskAnnError>| #[trigger]
                Self::built(vectors, labels@, params, dist, base, r) && params.max_degree == 64
                    && params.build_beam_width == 128 && params.alpha == 0x3f99_999a,
    {
        Self::build_with_params(vectors, labels, dist, DiskAnnParams::default())
    }

    /// Puts an index and labels together: there must be labels for each vector.
    pub fn assemble(index: DiskANN<'a, D>, labels: Vec<Vec<u64>>, num_fields: usize) -> (r: Result<
        Self,
        DiskAnnError,
    >)
        ensures
            Self::assembled(index, labels, num_fields, r),
    {
        if labels.len() != index.num_vectors {
            return Err(
                DiskAnnError::IndexError(
                    Fault::LabelCount { labels: labels.len(), vectors: index.num_vectors },
                ),
            );
        }
        Ok(FilteredDiskANN { index, labels, num_fields })
    }

    /// Putting an index and labels together gives `r`.
    pub open spec fn assembled(
        index: DiskANN<'a, D>,
        labels: Vec<Vec<u64>>,
        num_fields: usize,
        r: Result<Self, DiskAnnError>,
    ) -> bool {
        if labels@.len() != index.num_vectors {
            r is Err && r->Err_0 == DiskAnnError::IndexError(
                Fault::LabelCount {
                    labels: labels@.len() as usize,
                    vectors: index.num_vectors,
                },
            )
        } else {
            r is Ok && r->Ok_0.index == index && r->Ok_0.labels == labels && r->Ok_0.num_fields
                == num_fields
        }
    }

    /// The index in bytes: the length of the vector index, the vector index, the labels.
    pub fn to_bytes(&self) -> (out: Vec<u8>)
        ensures
            out@ == self.bytes_of(),
    {
        let base = self.index.to_bytes();
        let labels = serialize_labels(&self.labels, self.num_fields);
        let mut out: Vec<u8> = Vec::new();
        bytes::push_u64(&mut out, base.len() as u64);
        bytes::push_slice(&mut out, base.as_slice());
        bytes::push_slice(&mut out, labels.as_slice());
        assert(out@ =~= self.bytes_of());
        out
    }

    /// What `to_bytes` returns.
    pub open spec fn bytes_of(&self) -> Seq<u8> {
        bytes::le_bytes(self.index.storage@.len(), 8) + self.index.storage@ + labels_record(
            self.labels@,
            self.num_fields,
        )
    }

    /// Loading a labelled index from `b` gives `r`. The vector index is read before the
    /// labels, and the first thing that fails is reported.
    pub open spec fn loaded(
        b: Seq<u8>,
        dist: D,
        base: Result<DiskANN<'a, D>, DiskAnnError>,
        header: Result<Metadata, DiskAnnError>,
        labels: Result<(Vec<Vec<u64>>, usize), DiskAnnError>,
        n: usize,
        fields: usize,
        r: Result<Self, DiskAnnError>,
    ) -> bool {
        let length = bytes::le_value(b.subrange(0, 8)) as int;
        if b.len() < 8 {
            r is Err && r->Err_0 == DiskAnnError::IndexError(Fault::BufferTooSmall)
        } else if b.len() < 8 + length {
            r is Err && r->Err_0 == DiskAnnError::IndexError(Fault::NoIndexData)
        } else {
            &&& index::parsed(b.subrange(8, 8 + length), header)
            &&& DiskANN::loaded(header, b.subrange(8, 8 + length), dist, base)
            &&& match base {
                Err(e) => r is Err && r->Err_0 == e,
                Ok(index) => {
                    &&& labels_read(b.skip(8 + length), n, fields, labels)
                    &&& match labels {
                        Err(e) => r is Err && r->Err_0 == e,
                        Ok(l) => Self::assembled(index, l.0, l.1, r),
                    }
                },
            }
        }
    }

    /// Loads a labelled index from bytes.
    pub fn from_bytes(b: &[u8], dist: D) -> (r: Result<Self, DiskAnnError>)
        ensures
            exists|
                base: Result<DiskANN<'a, D>, DiskAnnError>,
                header: Result<Metadata, DiskAnnError>,
                labels: Result<(Vec<Vec<u64>>, usize), DiskAnnError>,
                n: usize,
                fields: usize,
            | #[trigger]
                Self::loaded(b@, dist, base, header, labels, n, fields, r),
    {
        let len: usize = b.len();
        let ghost no_base: Result<DiskANN<'a, D>, DiskAnnError> = Err(DiskAnnError::UnexpectedEof);
        let ghost no_header: Result<Metadata, DiskAnnError> = Err(DiskAnnError::UnexpectedEof);
        let ghost no_labels: Result<(Vec<Vec<u64>>, usize), DiskAnnError> = Err(
            DiskAnnError::UnexpectedEof,
        );
        if len < 8 {
            let r: Result<Self, DiskAnnError> = Err(
                DiskAnnError::IndexError(Fault::BufferTooSmall),
            );
            assert(Self::loaded(b@, dist, no_base, no_header, no_labels, 0, 0, r));
            return r;
        }
        let length: u64 = bytes::read_u64(b, 0);
        if length > (len - 8) as u64 {
            let r: Result<Self, DiskAnnError> = Err(DiskAnnError::IndexError(Fault::NoIndexData));
            assert(Self::loaded(b@, dist, no_base, no_header, no_labels, 0, 0, r));
            return r;
        }
        let split: usize = 8 + length as usize;
        let mut part: Vec<u8> = Vec::new();
        bytes::push_slice(&mut part, vstd::slice::slice_subrange(b, 8, split));
        assert(part@ =~= b@.subrange(8, split as int));
        let base = DiskANN::from_bytes(part, dist);
        let ghost kept = base;
        let ghost header = choose|header: Result<Metadata, DiskAnnError>| #[trigger]
            index::parsed(b@.subrange(8, split as int), header) && DiskANN::loaded(
                header,
                b@.subrange(8, split as int),
                dist,
                kept,
            );
        match base {
            Err(e) => {
                let r: Result<Self, DiskAnnError> = Err(e);
                assert(Self::loaded(b@, dist, kept, header, no_labels, 0, 0, r));
                r
            },
            Ok(index) => {
                let rest = vstd::slice::slice_subrange(b, split, len);
                assert(rest@ =~= b@.skip(split as int));
                let labels = deserialize_labels(rest);
                let ghost kept_labels = labels;
                let ghost (n, fields) = choose|n: usize, fields: usize| #[trigger]
                    labels_read(rest@, n, fields, kept_labels);
                match labels {
                    Err(e) => {
                        let r: Result<Self, DiskAnnError> = Err(e);
                        assert(Self::loaded(b@, dist, kept, header, kept_labels, n, fields, r));
                        r
                    },
                    Ok((rows, num_fields)) => {
                        let r = Self::assemble(index, rows, num_fields);
                        assert(Self::loaded(b@, dist, kept, header, kept_labels, n, fields, r));
                        r
                    },
                }
            },
        }
    }

    /// Opening a labelled index from its two files gives `r`. The vector index is read
    /// before the labels, and the first thing that fails is reported.
    pub open spec fn opened(
        index_file: Seq<u8>,
        labels_file: Seq<u8>,
        dist: D,
        header: Result<Metadata, DiskAnnError>,
        base: Result<DiskANN<'a, D>, DiskAnnError>,
        labels: Result<(Vec<Vec<u64>>, usize), DiskAnnError>,
        n: usize,
        fields: usize,
        r: Result<Self, DiskAnnError>,
    ) -> bool {
        &&& index::opened(index_file, header)
        &&& DiskANN::loaded(header, index_file, dist, base)
        &&& match base {
            Err(e) => r is Err && r->Err_0 == e,
            Ok(index) => {
                &&& labels_read(labels_file, n, fields, labels)
                &&& match from_file(labels) {
                    Err(e) => r is Err && r->Err_0 == e,
                    Ok(l) => Self::assembled(index, l.0, l.1, r),
                }
            },
        }
    }

    /// Opens a labelled index whose vector index is mapped at `index_file`.
    pub fn open(index_file: &'a [u8], labels_file: &[u8], dist: D) -> (r: Result<Self, DiskAnnError>)
        ensures
            exists|
                header: Result<Metadata, DiskAnnError>,
                base: Result<DiskANN<'a, D>, DiskAnnError>,
                labels: Result<(Vec<Vec<u64>>, usize), DiskAnnError>,
                n: usize,
                fields: usize,
            | #[trigger]
                Self::opened(
                    index_file@,
                    labels_file@,
                    dist,
                    header,
                    base,
                    labels,
                    n,
                    fields,
                    r,
                ),
    {
        let base = DiskANN::open_index_with(index_file, dist);
        let ghost kept = base;
        let ghost header = choose|header: Result<Metadata, DiskAnnError>| #[trigger]
            index::opened(index_file@, header) && DiskANN::loaded(header, index_file@, dist, kept);
        let ghost file = labels_file@;
        match base {
            Err(e) => {
                let r: Result<Self, DiskAnnError> = Err(e);
                proof {
                    let none: Result<(Vec<Vec<u64>>, usize), DiskAnnError> = Err(e);
                    assert(Self::opened(index_file@, file, dist, header, kept, none, 0, 0, r));
                }
                r
            },
            Ok(index) => {
                let labels = load_labels(labels_file);
                let ghost kept_labels = labels;
                let ghost (n, fields, read) = choose|
                    n: usize,
                    fields: usize,
                    read: Result<(Vec<Vec<u64>>, usize), DiskAnnError>,
                | #[trigger]
                    labels_read(file, n, fields, read) && kept_labels == from_file(read);
                match labels {
                    Err(e) => {
                        let r: Result<Self, DiskAnnError> = Err(e);
                        assert(Self::opened(
                            index_file@,
                            file,
                            dist,
                            header,
                            kept,
                            read,
                            n,
                            fields,
                            r,
                        ));
                        r
                    },
                    Ok((rows, num_fields)) => {
                        let r = Self::assemble(index, rows, num_fields);
                        assert(Self::opened(
                            index_file@,
                            file,
                            dist,
                            header,
                            kept,
                            read,
                            n,
                            fields,
                            r,
                        ));
                        r
                    },
                }
            },
        }
    }

    /// Loads a labelled index from bytes that other readers share.
    pub fn from_shared_bytes(b: Arc<[u8]>, dist: D) -> (r: Result<Self, DiskAnnError>)
        ensures
            exists|
                base: Result<DiskANN<'a, D>, DiskAnnError>,
                header: Result<Metadata, DiskAnnError>,
                labels: Result<(Vec<Vec<u64>>, usize), DiskAnnError>,
                n: usize,
                fields: usize,
            | #[trigger]
                Self::loaded(b@, dist, base, header, labels, n, fields, r),
    {
        Self::from_bytes(&*b, dist)
    }

    /// What a filtered search returns.
    pub open spec fn search_result(
        &self,
        query: &[u32],
        k: int,
        beam_width: int,
        filter: &Filter,
        t: Trace,
        r: Seq<Candidate>,
    ) -> bool {
        if filter is NoFilter {
            self.index.search_result(query, k, beam_width, t, r)
        } else {
            beam::search_outcome(
                &LabeledSpace {
                    base: QuerySpace { index: &self.index, query },
                    labels: &self.labels,
                    filter,
                },
                seq![self.index.medoid_id],
                beam_width,
                k,
                filtered_config(beam_width, k),
                t,
                r,
            )
        }
    }

    /// Searches for the nearest vectors that a filter accepts. Others are passed through
    /// on the way, but not returned.
    pub fn search_filtered_with_dists(
        &self,
        query: &[u32],
        k: usize,
        beam_width: usize,
        filter: &Filter,
    ) -> (r: Vec<Candidate>)
        requires
            self.index.valid(),
            query@.len() == self.index.dim,
            can_widen(beam_width as int, k as int),
        ensures
            exists|t: Trace| #[trigger]
                self.search_result(query, k as int, beam_width as int, filter, t, r@),
    {
        let plain: bool = match filter {
            Filter::NoFilter => true,
            _ => false,
        };
        if plain {
            let r = self.index.search_with_dists(query, k, beam_width);
            proof {
                let t = choose|t: Trace| #[trigger]
                    self.index.search_result(query, k as int, beam_width as int, t, r@);
                assert(self.search_result(query, k as int, beam_width as int, filter, t, r@));
            }
            return r;
        }
        let space = LabeledSpace {
            base: QuerySpace { index: &self.index, query },
            labels: &self.labels,
            filter,
        };
        let starts: Vec<u32> = vec![self.index.medoid_id];
        proof {
            lemma_labeled_space_closed(&space);
            assert(starts@ =~= seq![self.index.medoid_id]);
        }
        let config = widen(beam_width, k);
        let r = beam_search(&space, starts.as_slice(), beam_width, k, config);
        proof {
            let t = choose|t: Trace| #[trigger]
                beam::search_outcome(
                    &space,
                    starts@,
                    beam_width as int,
                    k as int,
                    config,
                    t,
                    r@,
                );
            assert(self.search_result(query, k as int, beam_width as int, filter, t, r@));
        }
        r
    }

    /// The ids that `search_filtered_with_dists` returns.
    pub fn search_filtered(&self, query: &[u32], k: usize, beam_width: usize, filter: &Filter) -> (r:
        Vec<u32>)
        requires
            self.index.valid(),
            query@.len() == self.index.dim,
            can_widen(beam_width as int, k as int),
        ensures
            exists|t: Trace, found: Seq<Candidate>| #[trigger]
                self.search_result(query, k as int, beam_width as int, filter, t, found) && r@
                    == index::ids(found),
    {
        let found = self.search_filtered_with_dists(query, k, beam_width, filter);
        index::ids_of(&found)
    }

    /// A filtered search for each query.
    pub fn search_filtered_batch(
        &self,
        queries: &Vec<Vec<u32>>,
        k: usize,
        beam_width: usize,
        filter: &Filter,
    ) -> (r: Vec<Vec<u32>>)
        requires
            self.index.valid(),
            kmeans::level(queries@, self.index.dim as int),
            can_widen(beam_width as int, k as int),
        ensures
            r@.len() == queries@.len(),
            forall|i: int|
                0 <= i < r@.len() ==> self.answers(
                    queries@[i],
                    k as int,
                    beam_width as int,
                    filter,
                    (#[trigger] r@[i])@,
                ),
    {
        let mut r: Vec<Vec<u32>> = Vec::new();
        let mut i: usize = 0;
        while i < queries.len()
            invariant
                i <= queries@.len(),
                self.index.valid(),
                kmeans::level(queries@, self.index.dim as int),
                can_widen(beam_width as int, k as int),
                r@.len() == i,
                forall|j: int|
                    0 <= j < i ==> self.answers(
                        queries@[j],
                        k as int,
                        beam_width as int,
                        filter,
                        (#[trigger] r@[j])@,
                    ),
            decreases queries@.len() - i,
        {
            assert(queries@[i as int]@.len() == self.index.dim);
            let query = queries[i].as_slice();
            let found = self.search_filtered(query, k, beam_width, filter);
            assert(query@ == queries@[i as int]@);
            r.push(found);
            i = i + 1;
        }
        r
    }

    /// The ids are those of a filtered search for the query.
    pub open spec fn answers(
        &self,
        query: Vec<u32>,
        k: int,
        beam_width: int,
        filter: &Filter,
        r: Seq<u32>,
    ) -> bool {
        exists|q: &[u32], t: Trace, found: Seq<Candidate>| #[trigger]
            self.search_result(q, k, beam_width, filter, t, found) && q@ == query@ && r
                == index::ids(found)
    }

    /// Searches without a filter.
    pub fn search(&self, query: &[u32], k: usize, beam_width: usize) -> (r: Vec<u32>)
        requires
            self.index.valid(),
            query@.len() == self.index.dim,
        ensures
            exists|t: Trace, found: Seq<Candidate>| #[trigger]
                self.index.search_result(query, k as int, beam_width as int, t, found) && r@
                    == index::ids(found),
    {
        self.index.search(query, k, beam_width)
    }

    /// The labels of a vector.
    pub fn get_labels(&self, id: usize) -> (r: Option<&[u64]>)
        ensures
            r is Some <==> id < self.labels@.len(),
            r is Some ==> r->0@ == self.labels@[id as int]@,
    {
        if id < self.labels.len() {
            Some(self.labels[id].as_slice())
        } else {
            None
        }
    }

    /// The index of the vectors.
    pub fn inner(&self) -> (r: &DiskANN<'a, D>)
        ensures
            *r == self.index,
    {
        &self.index
    }

    pub fn num_vectors(&self) -> (r: usize)
        ensures
            r == self.index.num_vectors,
    {
        self.index.num_vectors
    }

    pub fn num_fields(&self) -> (r: usize)
        ensures
            r == self.num_fields,
    {
        self.num_fields
    }

    /// How many vectors a filter accepts.
    pub fn count_matching(&self, filter: &Filter) -> (r: usize)
        ensures
            r == accepted(self.labels@, filter, self.labels@.len() as int),
    {
        let mut count: usize = 0;
        let mut i: usize = 0;
        while i < self.labels.len()
            invariant
                i <= self.labels@.len(),
                count <= i,
                count == accepted(self.labels@, filter, i as int),
            decreases self.labels@.len() - i,
        {
            if filter.matches(self.labels[i].as_slice()) {
                count = count + 1;
            }
            i = i + 1;
        }
        count
    }
}

/// Every answer of a filtered search is a vector that the filter accepts, with its
/// distance from the query; there are at most `k`, and none twice.
pub proof fn filter_is_kept<D: Distance>(
    index: &FilteredDiskANN<D>,
    query: &[u32],
    k: int,
    beam_width: int,
    filter: &Filter,
    t: Trace,
    r: Seq<Candidate>,
)
    requires
        k >= 0,
        index.index.valid(),
        query@.len() == index.index.dim,
        index.search_result(query, k, beam_width, filter, t, r),
        index.labels@.len() == index.index.num_vectors,
    ensures
        r.len() <= k,
        crate::candidate::distinct(r),
        forall|i: int|
            0 <= i < r.len() ==> {
                &&& (#[trigger] r[i]).id < index.index.num_vectors
                &&& filter.accepts(index.labels@[r[i].id as int]@)
                &&& r[i].dist == index.index.dist.eval_spec(
                    query@,
                    index.index.vector(r[i].id as int),
                )
            },
{
    let base = QuerySpace { index: &index.index, query };
    let starts = seq![index.index.medoid_id];
    if filter is NoFilter {
        index::lemma_query_space_closed(&base);
        beam::answers_are_sound(&base, starts, beam_width, k, beam::unbounded(), t, r);
    } else {
        let space = LabeledSpace { base, labels: &index.labels, filter };
        lemma_labeled_space_closed(&space);
        beam::answers_are_sound(
            &space,
            starts,
            beam_width,
            k,
            filtered_config(beam_width, k),
            t,
            r,
        );
    }
}

impl<'a, D: Distance> FilteredDiskANN<'a, D> {
    /// The two have the same index and the same labels.
    pub open spec fn is_same<'c>(&self, other: &FilteredDiskANN<'c, D>) -> bool {
        &&& self.index.is_same(&other.index)
        &&& self.num_fields == other.num_fields
        &&& self.labels@.len() == other.labels@.len()
        &&& forall|i: int|
            0 <= i < self.labels@.len() ==> (#[trigger] other.labels@[i])@ == self.labels@[i]@
    }
}

/// Loading the bytes of a labelled index gives the index and its labels back.
pub proof fn filtered_index_reads_back<D: Distance>(
    x: &FilteredDiskANN<D>,
    base: Result<DiskANN<D>, DiskAnnError>,
    header: Result<Metadata, DiskAnnError>,
    labels: Result<(Vec<Vec<u64>>, usize), DiskAnnError>,
    n: usize,
    fields: usize,
    r: Result<FilteredDiskANN<D>, DiskAnnError>,
)
    requires
        x.valid(),
        x.index.is_headed(),
        FilteredDiskANN::loaded(
            x.bytes_of(),
            x.index.dist,
            base,
            header,
            labels,
            n,
            fields,
            r,
        ),
    ensures
        r is Ok,
        x.is_same(&r->Ok_0),
        r->Ok_0.valid(),
{
    let b = x.bytes_of();
    let held = x.index.storage@;
    let rest = labels_record(x.labels@, x.num_fields);
    bytes::lemma_pow256();
    bytes::lemma_le_round_trip(held.len(), 8);
    assert(b.subrange(0, 8) =~= bytes::le_bytes(held.len(), 8));
    assert(b.subrange(8, 8 + held.len() as int) =~= held);
    assert(b.skip(8 + held.len() as int) =~= rest);
    index::headed_index_loads(&x.index, header, base);
    index::lemma_same_valid(&x.index, &base->Ok_0);
    labels_read_back(x.labels@, x.num_fields, n, fields, labels);
}

/// Two filtered searches for one query, of one labelled index or of two with the same
/// content, return the same list.
pub proof fn same_indexes_filter_to_one_list<D: Distance>(
    a: &FilteredDiskANN<D>,
    b: &FilteredDiskANN<D>,
    q1: &[u32],
    q2: &[u32],
    k: int,
    beam_width: int,
    filter: &Filter,
    t1: Trace,
    r1: Seq<Candidate>,
    t2: Trace,
    r2: Seq<Candidate>,
)
    requires
        a.is_same(b),
        a.index.valid(),
        q1@.len() == a.index.dim,
        q1@ == q2@,
        a.search_result(q1, k, beam_width, filter, t1, r1),
        b.search_result(q2, k, beam_width, filter, t2, r2),
    ensures
        r1 == r2,
{
    if filter is NoFilter {
        index::same_indexes_return_one_list(
            &a.index,
            &b.index,
            q1,
            q2,
            k,
            beam_width,
            t1,
            r1,
            t2,
            r2,
        );
    } else {
        let x = LabeledSpace {
            base: QuerySpace { index: &a.index, query: q1 },
            labels: &a.labels,
            filter,
        };
        let y = LabeledSpace {
            base: QuerySpace { index: &b.index, query: q2 },
            labels: &b.labels,
            filter,
        };
        index::lemma_same_valid(&a.index, &b.index);
        assert forall|id: u32| x.holds(id) implies #[trigger] x.keeps(id) == y.keeps(id) by {
            if id < a.labels@.len() {
                assert(b.labels@[id as int]@ == a.labels@[id as int]@);
            }
        }
        assert(beam::same_space(&x, &y));
        lemma_labeled_space_closed(&x);
        beam::searches_agree(
            &x,
            &y,
            seq![a.index.medoid_id],
            beam_width,
            k,
            filtered_config(beam_width, k),
            t1,
            r1,
            t2,
            r2,
        );
    }
}

/// Without a filter, the filtered search returns the list that the search of the graph
/// index returns.
pub proof fn unfiltered_search_is_plain<D: Distance>(
    a: &FilteredDiskANN<D>,
    query: &[u32],
    k: int,
    beam_width: int,
    t1: Trace,
    r1: Seq<Candidate>,
    t2: Trace,
    r2: Seq<Candidate>,
)
    requires
        a.index.valid(),
        query@.len() == a.index.dim,
        a.search_result(query, k, beam_width, &Filter::NoFilter, t1, r1),
        a.index.search_result(query, k, beam_width, t2, r2),
    ensures
        r1 == r2,
{
    index::same_indexes_return_one_list(
        &a.index,
        &a.index,
        query,
        query,
        k,
        beam_width,
        t1,
        r1,
        t2,
        r2,
    );
}

} // verus!
