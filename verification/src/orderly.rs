//! What every operation keeps of an incremental index: tidy rows, and a row of labels for
//! each vector.
use crate::error::DiskAnnError;
use crate::filtered;
use crate::image;
use crate::incremental;
use crate::incremental::Compaction;
use crate::incremental::IncrementalConfig;
use crate::incremental::IncrementalDiskANN;
use crate::incremental::QuantizerKind;
use crate::index::DiskANN;
use crate::metric::Distance;
use crate::quantizer::QuantizerState;
use vstd::prelude::*;

verus! {

impl<'a, D: Distance> IncrementalDiskANN<'a, D> {
    /// If there are labels, each vector has its row of them, all with one number of
    /// fields.
    pub open spec fn is_labelled(&self) -> bool {
        self.base_labels matches Some(l) ==> {
            &&& l@.len() == self.base_count()
            &&& self.delta_labels@.len() == self.delta.vectors@.len()
            &&& self.num_label_fields > 0
            &&& image::labels_are_level(l@, self.num_label_fields as int)
            &&& image::labels_are_level(self.delta_labels@, self.num_label_fields as int)
        }
    }

    /// Rows of the graph of added vectors are tidy, and labels are complete.
    pub open spec fn is_orderly(&self) -> bool {
        self.delta.tidy() && self.is_labelled()
    }
}

/// An orderly index can be written.
pub proof fn orderly_index_can_be_written<D: Distance>(index: &IncrementalDiskANN<D>)
    requires
        index.valid(),
        index.is_orderly(),
    ensures
        index.can_be_written(),
{
    image::tidy_index_can_be_written(index);
}

/// In an orderly index with labels each vector has labels.
pub proof fn orderly_index_has_all_labels<D: Distance>(index: &IncrementalDiskANN<D>, pos: int)
    requires
        index.is_orderly(),
        index.base_labels is Some,
        0 <= pos < index.total(),
    ensures
        index.label_at(pos) is Some,
        index.label_at(pos)->0.len() == index.num_label_fields,
{
}

/// A new index is orderly, if its labels have one number of fields, and at least one.
pub proof fn built_index_is_orderly<'a, D: Distance>(
    vectors: &Vec<Vec<u32>>,
    labels: Option<Seq<Vec<u64>>>,
    dist: D,
    config: IncrementalConfig,
    kind: Option<QuantizerKind>,
    rerank_size: usize,
    base: Result<DiskANN<'a, D>, DiskAnnError>,
    trained: Result<QuantizerState, DiskAnnError>,
    r: Result<IncrementalDiskANN<'a, D>, DiskAnnError>,
)
    requires
        IncrementalDiskANN::built(
            vectors,
            labels,
            dist,
            config,
            kind,
            rerank_size,
            base,
            trained,
            r,
        ),
        r is Ok,
        labels matches Some(l) ==> filtered::field_count(l) > 0 && image::labels_are_level(
            l,
            filtered::field_count(l),
        ),
    ensures
        r->Ok_0.is_orderly(),
        labels matches Some(l) ==> forall|i: int|
            0 <= i < l.len() ==> r->Ok_0.label_at(i) == Some((#[trigger] l[i])@),
{
}

/// An index without a base is orderly.
pub proof fn empty_index_is_orderly<D: Distance>(index: &IncrementalDiskANN<D>)
    requires
        index.is_clean(),
        index.base_labels is None,
    ensures
        index.is_orderly(),
{
}

/// Adding vectors leaves an index orderly. Where there are labels, those added get rows
/// of zeros, and the others keep theirs.
pub proof fn adding_keeps_order<D: Distance>(
    pre: &IncrementalDiskANN<D>,
    vectors: Seq<Vec<u32>>,
    post: &IncrementalDiskANN<D>,
    r: Result<Vec<u64>, DiskAnnError>,
)
    requires
        pre.is_orderly(),
        IncrementalDiskANN::added(pre, vectors, post, r),
    ensures
        post.is_orderly(),
        pre.base_labels is Some ==> forall|pos: int|
            0 <= pos < pre.total() ==> #[trigger] post.label_at(pos) == pre.label_at(pos),
        pre.base_labels is Some && r is Ok ==> forall|i: int|
            0 <= i < vectors.len() ==> #[trigger] post.label_at(pre.total() + i) == Some(
                incremental::zeros(pre.num_label_fields as int),
            ),
{
    if vectors.len() > 0 && r is Ok && pre.base_labels is Some {
        let rows = Seq::new(vectors.len(), |i: int| incremental::zeros(pre.num_label_fields as int));
        lemma_labels_extended(pre, vectors, rows, r->Ok_0@, post);
        assert forall|i: int| 0 <= i < vectors.len() implies #[trigger] post.label_at(
            pre.total() + i,
        ) == Some(incremental::zeros(pre.num_label_fields as int)) by {
            assert(post.label_at(pre.total() + i) == Some(rows[i]));
        }
    }
}

/// Adding vectors with labels leaves an index orderly: each vector that was added has the
/// row that came with it, and the others keep theirs.
pub proof fn adding_with_labels_keeps_order<D: Distance>(
    pre: &IncrementalDiskANN<D>,
    vectors: Seq<Vec<u32>>,
    labels: Seq<Vec<u64>>,
    post: &IncrementalDiskANN<D>,
    r: Result<Vec<u64>, DiskAnnError>,
)
    requires
        pre.is_orderly(),
        IncrementalDiskANN::added_with_labels(pre, vectors, labels, post, r),
    ensures
        post.is_orderly(),
        pre.base_labels is Some ==> forall|pos: int|
            0 <= pos < pre.total() ==> #[trigger] post.label_at(pos) == pre.label_at(pos),
        pre.base_labels is Some && r is Ok ==> forall|i: int|
            0 <= i < vectors.len() ==> #[trigger] post.label_at(pre.total() + i) == Some(
                labels[i]@,
            ),
{
    if vectors.len() > 0 && r is Ok && pre.base_labels is Some {
        let rows = labels.map_values(|l: Vec<u64>| l@);
        let fields = pre.num_label_fields as int;
        assert forall|i: int| 0 <= i < rows.len() implies (#[trigger] rows[i]).len() == fields by {
            lemma_no_odd_row(labels, fields, 0, i);
        }
        lemma_labels_extended(pre, vectors, rows, r->Ok_0@, post);
        assert forall|i: int| 0 <= i < vectors.len() implies #[trigger] post.label_at(
            pre.total() + i,
        ) == Some(labels[i]@) by {
            assert(post.label_at(pre.total() + i) == Some(rows[i]));
        }
    }
}

proof fn lemma_no_odd_row(labels: Seq<Vec<u64>>, fields: int, from: int, i: int)
    requires
        filtered::first_odd_row(labels, fields, from) is None,
        0 <= from <= i < labels.len(),
    ensures
        labels[i]@.len() == fields,
    decreases labels.len() - from,
{
    if from < i {
        lemma_no_odd_row(labels, fields, from + 1, i);
    }
}

proof fn lemma_labels_extended<D: Distance>(
    pre: &IncrementalDiskANN<D>,
    vectors: Seq<Vec<u32>>,
    rows: Seq<Seq<u64>>,
    ids: Seq<u64>,
    post: &IncrementalDiskANN<D>,
)
    requires
        pre.is_orderly(),
        pre.base_labels is Some,
        rows.len() == vectors.len(),
        forall|i: int| 0 <= i < rows.len() ==> (#[trigger] rows[i]).len() == pre.num_label_fields,
        post.is_extension(pre, vectors, rows, ids),
    ensures
        post.is_orderly(),
        forall|pos: int|
            0 <= pos < pre.total() ==> #[trigger] post.label_at(pos) == pre.label_at(pos),
        forall|i: int|
            0 <= i < vectors.len() ==> #[trigger] post.label_at(pre.total() + i) == Some(rows[i]),
{
    let n = pre.delta_labels@.len() as int;
    assert(post.delta.vectors@.len() == pre.delta.vectors@.len() + vectors.len());
    assert forall|i: int| 0 <= i < post.delta_labels@.len() implies (
    #[trigger] post.delta_labels@[i])@.len() == post.num_label_fields by {
        if i < n {
            assert(post.delta_labels@[i] == pre.delta_labels@[i]);
        } else {
            assert(post.delta_labels@[n + (i - n)]@ == rows[i - n]);
        }
    }
    assert forall|pos: int| 0 <= pos < pre.total() implies #[trigger] post.label_at(pos)
        == pre.label_at(pos) by {
        if pos >= pre.base_count() {
            let local = pos - pre.base_count();
            assert(post.delta_labels@[local] == pre.delta_labels@[local]);
        }
    }
    assert forall|i: int| 0 <= i < vectors.len() implies #[trigger] post.label_at(pre.total() + i)
        == Some(rows[i]) by {
        assert(post.delta_labels@[n + i]@ == rows[i]);
    }
}

/// Deleting vectors leaves an index orderly, and leaves the labels as they are.
pub proof fn deleting_keeps_order<D: Distance>(
    pre: &IncrementalDiskANN<D>,
    ids: Seq<u64>,
    post: &IncrementalDiskANN<D>,
)
    requires
        pre.is_orderly(),
        IncrementalDiskANN::deleted(pre, ids, post),
    ensures
        post.is_orderly(),
        forall|pos: int| #[trigger] post.label_at(pos) == pre.label_at(pos),
{
}

/// Compacting leaves an index orderly: each vector that is left keeps its labels.
pub proof fn compacting_keeps_order<'a, D: Distance>(
    pre: &IncrementalDiskANN<'a, D>,
    all: Vec<Vec<u32>>,
    base: Result<DiskANN<'a, D>, DiskAnnError>,
    c: Result<Compaction<'a, D>, DiskAnnError>,
    post: &IncrementalDiskANN<'a, D>,
    r: Result<(), DiskAnnError>,
)
    requires
        pre.is_orderly(),
        IncrementalDiskANN::compacted(pre, all, base, c, post, r),
    ensures
        post.is_orderly(),
        pre.base_labels is Some && r is Ok ==> forall|i: int|
            0 <= i < pre.live().len() ==> #[trigger] post.label_at(i) == pre.label_at(
                pre.live()[i],
            ),
{
    if r is Ok && pre.base_labels is Some {
        let l = post.base_labels->0@;
        assert(post.base_count() == pre.live().len());
        assert forall|i: int| 0 <= i < l.len() implies (#[trigger] l[i])@.len()
            == pre.num_label_fields && pre.label_at(pre.live()[i]) == Some(l[i]@) by {
            lemma_live_bounds(pre, pre.total(), i);
            orderly_index_has_all_labels(pre, pre.live()[i]);
        }
        assert forall|i: int| 0 <= i < pre.live().len() implies #[trigger] post.label_at(i)
            == pre.label_at(pre.live()[i]) by {
            assert(pre.label_at(pre.live()[i]) == Some(l[i]@));
        }
    }
}

proof fn lemma_live_bounds<D: Distance>(index: &IncrementalDiskANN<D>, n: int, i: int)
    requires
        0 <= i < index.live_upto(n).len(),
    ensures
        0 <= index.live_upto(n)[i] < n,
    decreases n,
{
    if n > 0 && i < index.live_upto(n - 1).len() {
        lemma_live_bounds(index, n - 1, i);
    }
}

/// An index that is like an orderly one is orderly.
pub proof fn like_index_is_orderly<D: Distance>(
    index: &IncrementalDiskANN<D>,
    other: &IncrementalDiskANN<D>,
)
    requires
        index.valid(),
        index.is_orderly(),
        index.is_like(other),
    ensures
        other.is_orderly(),
{
    crate::like::like_indexes_hold_the_same(index, other);
    if index.base_labels is Some {
        let a = index.base_labels->0@;
        let b = other.base_labels->0@;
        assert(image::long_rows(a).len() == image::long_rows(b).len());
        assert(image::long_rows(index.delta_labels@).len() == image::long_rows(
            other.delta_labels@,
        ).len());
        assert forall|i: int| 0 <= i < b.len() implies (#[trigger] b[i])@.len()
            == other.num_label_fields by {
            assert(image::long_rows(a)[i] == image::long_rows(b)[i]);
            assert(a[i]@.len() == index.num_label_fields);
        }
        assert forall|i: int| 0 <= i < other.delta_labels@.len() implies (
        #[trigger] other.delta_labels@[i])@.len() == other.num_label_fields by {
            assert(image::long_rows(index.delta_labels@)[i] == image::long_rows(
                other.delta_labels@,
            )[i]);
            assert(index.delta_labels@[i]@.len() == index.num_label_fields);
        }
    }
}

} // verus!
