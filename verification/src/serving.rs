//! What the answers of an index that changes are, in terms of its vectors and labels alone.
use vstd::prelude::*;
use crate::beam;
use crate::beam::{SearchSpace, Trace};
use crate::building;
use crate::candidate;
use crate::candidate::{Candidate, Hit};
use crate::delta;
use crate::error::{DiskAnnError, Fault};
use crate::filter::Filter;
use crate::filtered;
use crate::filtered::{FilteredDiskANN, LabeledSpace};
use crate::incremental;
use crate::incremental::{IncrementalConfig, IncrementalDiskANN, QuantizerKind, UnifiedView};
use crate::index;
use crate::index::{DiskANN, QuerySpace};
use crate::metric::Distance;
use crate::quantized;
use crate::quantized::{CodeSpace, QuantizedDiskANN};
use crate::quantizer::{Prepared, QuantizerState};
use crate::word;

verus! {

/// The distance that an id is answered with: from the query to the vector itself, except
/// that ids of the base are measured by codes where `coarse`.
pub open spec fn measured<'a, D: Distance>(
    ix: &IncrementalDiskANN<'a, D>,
    query: Seq<u32>,
    id: u64,
    coarse: bool,
) -> u32 {
    if id >= 0x1_0000_0000_0000 {
        ix.dist.eval_spec(query, ix.delta.vectors@[id - 0x1_0000_0000_0000]@)
    } else if coarse {
        let q = ix.quantizer->Some_0;
        let size = q.code_len();
        q.distance_of(
            ix.dist,
            query,
            ix.base_codes->Some_0@.subrange(id * size, id * size + size),
        )
    } else {
        ix.base->Some_0.dist.eval_spec(query, ix.base->Some_0.vector(id as int))
    }
}

/// The id names a vector: of the base, or, from 2^48 on, one that was added.
pub open spec fn is_named<'a, D: Distance>(ix: &IncrementalDiskANN<'a, D>, id: u64) -> bool {
    if id >= 0x1_0000_0000_0000 {
        id - 0x1_0000_0000_0000 < ix.delta.vectors@.len()
    } else {
        ix.base is Some && id < ix.base->Some_0.num_vectors
    }
}

/// The labels of an id, where there are any.
pub open spec fn labels_of<'a, D: Distance>(ix: &IncrementalDiskANN<'a, D>, id: u64) -> Option<
    Seq<u64>,
> {
    if id >= 0x1_0000_0000_0000 {
        if id - 0x1_0000_0000_0000 < ix.delta_labels@.len() {
            Some(ix.delta_labels@[id - 0x1_0000_0000_0000]@)
        } else {
            None
        }
    } else if ix.base_labels is Some && id < ix.base_labels->Some_0@.len() {
        Some(ix.base_labels->Some_0@[id as int]@)
    } else {
        None
    }
}

proof fn lemma_view<'a, D: Distance>(view: &UnifiedView<D>, i: int)
    requires
        view.index.valid(),
        view.query@.len() == view.index.dim,
        view.prep matches Some(p) ==> view.index.by_codes()
            && view.index.quantizer->Some_0.is_prepared(view.index.dist, view.query@, p),
        0 <= i < view.index.starts().len(),
    ensures
        view.holds(view.index.starts()[i]),
        beam::is_closed(view),
{
    incremental::lemma_view_closed(view);
    if view.index.base is Some {
        assert(view.index.starts()[0] == view.index.base->Some_0.medoid_id);
    }
}

/// A search answers with at most as many ids as asked for, none of a deleted vector, each
/// at its distance from the query: by codes for the vectors of a base that has them, unless
/// answers are compared again, and by the vectors else.
pub proof fn answers_stand_at_their_distances<'a, D: Distance>(
    ix: &IncrementalDiskANN<'a, D>,
    query: &[u32],
    k: int,
    beam_width: int,
    prep: Prepared,
    t: Trace,
    found: Seq<Candidate>,
    kept: Seq<Candidate>,
    r: Seq<Hit>,
    i: int,
)
    requires
        0 <= k,
        ix.valid(),
        query@.len() == ix.dim,
        ix.search_result(query, k, beam_width, prep, t, found, kept, r),
        0 <= i < r.len(),
    ensures
        r.len() <= k,
        is_named(ix, r[i].id),
        !ix.tombstones@.contains(r[i].id),
        r[i].dist == measured(
            ix,
            query@,
            r[i].id,
            ix.quantizer is Some && ix.base_codes is Some && ix.rerank_size == 0,
        ),
{
    let view = UnifiedView {
        index: ix,
        query,
        prep: if ix.by_codes() {
            Some(&prep)
        } else {
            None
        },
        filter: None,
    };
    let wanted = if ix.by_codes() {
        quantized::search_k(ix.rerank_size as int, k)
    } else {
        k
    };
    assert forall|j: int| 0 <= j < ix.starts().len() implies view.holds(
        #[trigger] ix.starts()[j],
    ) by {
        lemma_view(&view, j);
    }
    lemma_view(&view, 0);
    beam::answers_are_sound(
        &view,
        ix.starts(),
        beam_width,
        wanted,
        incremental::tombstone_bounds(beam_width, wanted, ix.tombstones@.len() as int),
        t,
        found,
    );
    assert(r.len() == kept.len());
    let c = kept[i];
    assert(r[i].id == ix.global(c.id as int));
    if ix.by_codes() && ix.rerank_size > 0 {
        let again = ix.rescored(query@, found);
        let all = choose|all: Seq<Candidate>| #[trigger]
            candidate::same_items(all, again) && candidate::ranked(all) && kept
                == candidate::first(all, k);
        candidate::lemma_same_items(all, again);
        assert(all[i] == c);
        assert(all.contains(c));
        assert(again.contains(c));
        let j = choose|j: int| 0 <= j < again.len() && again[j] == c;
        assert(view.holds(found[j].id));
        assert(view.keeps(found[j].id));
    } else {
        assert(view.holds(found[i].id));
        assert(view.keeps(found[i].id));
    }
}

/// A filtered search answers with at most as many ids as asked for, none of a deleted
/// vector, each with labels that the filter accepts, at the distance of its vector.
pub proof fn filtered_answers_are_accepted<'a, D: Distance>(
    ix: &IncrementalDiskANN<'a, D>,
    query: &[u32],
    k: int,
    beam_width: int,
    filter: &Filter,
    t: Trace,
    found: Seq<Candidate>,
    r: Seq<Hit>,
    i: int,
)
    requires
        0 <= k,
        ix.valid(),
        query@.len() == ix.dim,
        ix.filtered_result(query, k, beam_width, filter, t, found, r),
        0 <= i < r.len(),
    ensures
        r.len() <= k,
        is_named(ix, r[i].id),
        !ix.tombstones@.contains(r[i].id),
        r[i].dist == measured(ix, query@, r[i].id, false),
        labels_of(ix, r[i].id) is Some,
        filter.accepts(labels_of(ix, r[i].id)->Some_0),
{
    let view = UnifiedView { index: ix, query, prep: None, filter: Some(filter) };
    assert forall|j: int| 0 <= j < ix.starts().len() implies view.holds(
        #[trigger] ix.starts()[j],
    ) by {
        lemma_view(&view, j);
    }
    lemma_view(&view, 0);
    beam::answers_are_sound(
        &view,
        ix.starts(),
        beam_width,
        k,
        filtered::filtered_config(beam_width, k),
        t,
        found,
    );
    assert(view.holds(found[i].id));
    assert(view.keeps(found[i].id));
    assert(r[i].id == ix.global(found[i].id as int));
}

/// Searches start at the medoid of the base and at the entry of the added vectors, which
/// are counted behind those of the base; where neither is there, there are no answers.
pub proof fn searches_start_in_both_parts<'a, D: Distance>(
    ix: &IncrementalDiskANN<'a, D>,
    query: &[u32],
    k: int,
    beam_width: int,
    prep: Prepared,
    t: Trace,
    found: Seq<Candidate>,
    kept: Seq<Candidate>,
    r: Seq<Hit>,
)
    requires
        ix.valid(),
        ix.search_result(query, k, beam_width, prep, t, found, kept, r),
    ensures
        ix.starts() == match (ix.base, ix.delta.entry_point) {
            (Some(b), Some(e)) => seq![b.medoid_id, (b.num_vectors + e) as u32],
            (Some(b), None) => seq![b.medoid_id],
            (None, Some(e)) => seq![e],
            (None, None) => Seq::empty(),
        },
        ix.base is None && ix.delta.entry_point is None ==> r.len() == 0,
{
    assert(Seq::<u32>::empty().push(1) =~= seq![1u32]);
    match (ix.base, ix.delta.entry_point) {
        (Some(b), Some(e)) => {
            assert(ix.starts() =~= seq![b.medoid_id, (b.num_vectors + e) as u32]);
        },
        (None, Some(e)) => {
            assert(ix.starts() =~= seq![e]);
        },
        _ => {},
    }
}

/// Deleted vectors widen a search: to twice the beam, or to the answers asked for and as
/// many more as there are deleted vectors, up to the beam; twice as many nodes are expanded
/// at most, and the search stops at what is farther than 1.5 times the worst answer.
pub proof fn deletions_widen_searches(beam_width: int, k: int, tombstones: int)
    requires
        0 <= beam_width,
        0 <= k,
        0 <= tombstones,
        incremental::can_search(beam_width, k),
    ensures
        ({
            let c = incremental::tombstone_bounds(beam_width, k, tombstones);
            if tombstones == 0 {
                c.expanded_beam is None && c.max_iterations is None && c.early_term_factor is None
            } else {
                &&& c.early_term_factor == Some(0x3fc0_0000u32)
                &&& c.expanded_beam matches Some(wide) && c.max_iterations matches Some(most)
                    && most == 2 * wide && (wide == 2 * beam_width || wide == k + beam_width || wide
                    == k + tombstones) && wide >= 2 * beam_width && wide >= k + if tombstones
                    < beam_width {
                    tombstones
                } else {
                    beam_width
                } && (wide > 2 * beam_width ==> wide <= k + tombstones)
            }
        }),
{
}

/// A filtered search widens to four times the beam or ten times the answers asked for,
/// whichever is more; twice as many nodes are expanded at most, and the search stops at
/// what is farther than 1.5 times the worst answer.
pub proof fn filters_widen_searches(beam_width: int, k: int)
    requires
        0 <= beam_width,
        0 <= k,
        filtered::can_widen(beam_width, k),
    ensures
        ({
            let c = filtered::filtered_config(beam_width, k);
            &&& c.early_term_factor == Some(0x3fc0_0000u32)
            &&& c.expanded_beam matches Some(wide) && c.max_iterations matches Some(most) && most
                == 2 * wide && wide >= 4 * beam_width && wide >= 10 * k && (wide == 4 * beam_width
                || wide == 10 * k)
        }),
{
}

/// A search by codes is asked for as many candidates as are compared again, or for as many
/// as are to be answered where that is more.
pub proof fn enough_candidates_are_compared(rerank_size: int, k: int)
    ensures
        quantized::search_k(rerank_size, k) >= rerank_size,
        quantized::search_k(rerank_size, k) >= k,
        quantized::search_k(rerank_size, k) == rerank_size || quantized::search_k(rerank_size, k)
            == k,
{
}

/// Compaction is due once there are as many added vectors as the threshold says, or once
/// the share of deleted ones among all vectors is not below its threshold.
pub proof fn compaction_falls_due<'a, D: Distance>(ix: &IncrementalDiskANN<'a, D>)
    ensures
        ix.delta.vectors@.len() >= ix.config.delta_threshold ==> ix.is_due(),
        ({
            let all = ix.delta.vectors@.len() + match ix.base {
                Some(b) => b.num_vectors as nat,
                None => 0,
            };
            let share = ix.dist.quotient_spec(
                ix.dist.count_spec(ix.tombstones@.len() as usize),
                ix.dist.count_spec(all as usize),
            );
            ix.delta.vectors@.len() < ix.config.delta_threshold ==> (ix.is_due() <==> all > 0
                && !word::is_nan(share) && !word::is_nan(ix.config.tombstone_ratio_threshold)
                && word::order(ix.config.tombstone_ratio_threshold) <= word::order(share))
        }),
{
}

/// The default configuration: 10000 added vectors, a share of 0.1, degree 32, beam 64,
/// parameter 1.2.
pub proof fn defaults_are_these(config: IncrementalConfig)
    requires
        incremental::is_default(config),
    ensures
        config.delta_threshold == 10_000,
        config.tombstone_ratio_threshold == 0x3dcc_cccd,
        config.delta_params.max_degree == 32,
        config.delta_params.build_beam_width == 64,
        config.delta_params.alpha == 0x3f99_999a,
{
}

/// The base of a new index is built with degree 32, beam 256 and parameter 1.2 over all
/// vectors; nothing is added or deleted yet; and code `i` of a base with codes is that of
/// vector `i`.
pub proof fn new_index_has_its_base<'a, D: Distance>(
    vectors: &Vec<Vec<u32>>,
    labels: Option<Seq<Vec<u64>>>,
    dist: D,
    config: IncrementalConfig,
    kind: Option<QuantizerKind>,
    rerank_size: usize,
    base: Result<DiskANN<'a, D>, DiskAnnError>,
    trained: Result<QuantizerState, DiskAnnError>,
    r: Result<IncrementalDiskANN<'a, D>, DiskAnnError>,
)
    requires
        IncrementalDiskANN::built(
            vectors,
            labels,
            dist,
            config,
            kind,
            rerank_size,
            base,
            trained,
            r,
        ),
        r is Ok,
    ensures
        ({
            let ix = r->Ok_0;
            &&& ix.base is Some
            &&& ix.base->Some_0.is_built_from(vectors, 32, 256, 0x3f99_999a, dist)
            &&& ix.dist == dist
            &&& ix.config == config
            &&& ix.dim == vectors@[0]@.len()
            &&& ix.delta.vectors@.len() == 0
            &&& ix.tombstones@ == Set::<u64>::empty()
            &&& ix.delta.max_degree == config.delta_params.max_degree
            &&& ix.rerank_size == if kind is Some {
                rerank_size
            } else {
                0
            }
        }),
{
}

/// After compaction the base is built with degree 32, beam 256 and parameter 1.2 over the
/// vectors that were not deleted, and nothing is added or deleted.
pub proof fn compacted_index_has_its_base<'a, D: Distance>(
    pre: &IncrementalDiskANN<'a, D>,
    all: Vec<Vec<u32>>,
    base: Result<DiskANN<'a, D>, DiskAnnError>,
    c: Result<incremental::Compaction<'a, D>, DiskAnnError>,
    post: &IncrementalDiskANN<'a, D>,
    r: Result<(), DiskAnnError>,
)
    requires
        IncrementalDiskANN::compacted(pre, all, base, c, post, r),
        r is Ok,
    ensures
        post.base is Some,
        post.base->Some_0.is_built_from(&all, 32, 256, 0x3f99_999a, pre.dist),
        post.delta.vectors@.len() == 0,
        post.tombstones@ == Set::<u64>::empty(),
        post.delta.max_degree == pre.config.delta_params.max_degree,
{
}

/// Deleting ids deletes those and no others; nothing else changes.
pub proof fn deleting_deletes_those<'a, D: Distance>(
    pre: &IncrementalDiskANN<'a, D>,
    ids: Seq<u64>,
    post: &IncrementalDiskANN<'a, D>,
    id: u64,
)
    requires
        IncrementalDiskANN::deleted(pre, ids, post),
    ensures
        post.tombstones@.contains(id) <==> pre.tombstones@.contains(id) || ids.contains(id),
        post.base == pre.base,
        post.delta == pre.delta,
        post.base_labels == pre.base_labels,
        post.delta_labels == pre.delta_labels,
        post.base_codes == pre.base_codes,
{
    assert(ids.to_set().contains(id) <==> ids.contains(id));
}

/// Added vectors get ids from 2^48 on, in turn behind those added before.
pub proof fn added_vectors_are_numbered<'a, D: Distance>(
    pre: &IncrementalDiskANN<'a, D>,
    vectors: Seq<Vec<u32>>,
    labels: Seq<Seq<u64>>,
    post: &IncrementalDiskANN<'a, D>,
    ids: Seq<u64>,
    i: int,
)
    requires
        post.is_extension(pre, vectors, labels, ids),
        0 <= i < vectors.len(),
    ensures
        ids.len() == vectors.len(),
        ids[i] == 0x1_0000_0000_0000 + pre.delta.vectors@.len() + i,
        post.delta.vectors@[pre.delta.vectors@.len() + i]@ == vectors[i]@,
{
    assert(delta::DELTA_ID_OFFSET == 0x1_0000_0000_0000);
    assert(ids[i] == delta::DELTA_ID_OFFSET + pre.delta.vectors@.len() + i);
    assert(post.vector_at(pre.total() + i) == vectors[i]@);
}

/// A search of a plain index starts at its medoid and keeps a beam of the width asked for,
/// with no other bounds; its answers are the nearest of that beam.
pub proof fn plain_searches_start_at_the_medoid<'a, D: Distance>(
    ix: &DiskANN<'a, D>,
    query: &[u32],
    k: int,
    beam_width: int,
    t: Trace,
    r: Seq<Candidate>,
)
    requires
        0 <= k,
        ix.search_result(query, k, beam_width, t, r),
    ensures
        t.seen.contains(ix.medoid_id),
        beam::explored(&QuerySpace { index: ix, query }, seq![ix.medoid_id], beam_width, t),
        beam::finished(&QuerySpace { index: ix, query }, beam_width, t),
        r.len() == if t.beam.len() <= k {
            t.beam.len() as int
        } else {
            k
        },
        forall|i: int| 0 <= i < r.len() ==> t.beam.contains(#[trigger] r[i]),
{
    let space = QuerySpace { index: ix, query };
    assert(beam::reached(&space, seq![ix.medoid_id], t.expanded, ix.medoid_id)) by {
        assert(seq![ix.medoid_id][0] == ix.medoid_id);
    }
    lemma_admits_all(&space, t.beam);
    let all = choose|all: Seq<Candidate>| #[trigger]
        candidate::same_items(all, beam::admitted(&space, t.beam)) && candidate::ranked(all) && r
            == candidate::first(all, k);
    candidate::lemma_same_items(all, t.beam);
    candidate::lemma_same_items(t.beam, all);
    assert forall|i: int| 0 <= i < r.len() implies t.beam.contains(#[trigger] r[i]) by {
        assert(r[i] == all[i]);
        assert(all.contains(all[i]));
    }
}

proof fn lemma_admits_all<D: Distance>(space: &QuerySpace<D>, s: Seq<Candidate>)
    ensures
        beam::admitted(space, s) == s,
    decreases s.len(),
{
    if s.len() > 0 {
        lemma_admits_all(space, s.drop_last());
        assert(s.drop_last().push(s.last()) =~= s);
    } else {
        assert(s =~= Seq::empty());
    }
}

/// A filtered search of a labelled index starts at its medoid, gathers the nearest of the
/// nodes seen whose labels the filter accepts, at their distances, and widens the beam to
/// four times the width or ten times the answers.
pub proof fn labelled_searches_gather_accepted<'a, D: Distance>(
    ix: &FilteredDiskANN<'a, D>,
    query: &[u32],
    k: int,
    beam_width: int,
    filter: &Filter,
    t: Trace,
    r: Seq<Candidate>,
    i: int,
)
    requires
        ix.valid(),
        query@.len() == ix.index.dim,
        0 <= k,
        0 <= beam_width,
        filtered::can_widen(beam_width, k),
        !(filter is NoFilter),
        ix.search_result(query, k, beam_width, filter, t, r),
        0 <= i < r.len(),
    ensures
        t.seen.contains(ix.index.medoid_id),
        t.expanded.len() <= 8 * beam_width || t.expanded.len() <= 20 * k,
        r.len() <= k,
        r[i].id < ix.index.num_vectors,
        filter.accepts(ix.labels@[r[i].id as int]@),
        r[i].dist == ix.index.dist.eval_spec(query@, ix.index.vector(r[i].id as int)),
        forall|id: u32| #[trigger]
            t.seen.contains(id) && filter.accepts(ix.labels@[id as int]@)
                && !candidate::holds_id(r, id) && id < ix.labels@.len() ==> r.len() == k,
{
    let space = LabeledSpace {
        base: QuerySpace { index: &ix.index, query },
        labels: &ix.labels,
        filter,
    };
    let starts = seq![ix.index.medoid_id];
    assert(beam::reached(&space, starts, t.expanded, ix.index.medoid_id)) by {
        assert(starts[0] == ix.index.medoid_id);
    }
    filtered::lemma_labeled_space_closed(&space);
    assert(space.holds(starts[0]));
    beam::answers_are_sound(
        &space,
        starts,
        beam_width,
        k,
        filtered::filtered_config(beam_width, k),
        t,
        r,
    );
    assert(space.keeps(r[i].id));
}

/// A search by codes starts at the medoid, asks for as many candidates as are compared again
/// or as are to be answered, whichever is more, and keeps the beam asked for.
pub proof fn coded_searches_start_at_the_medoid<'a, D: Distance>(
    ix: &QuantizedDiskANN<'a, D>,
    query: &[u32],
    k: int,
    beam_width: int,
    prep: Prepared,
    t: Trace,
    found: Seq<Candidate>,
    r: Seq<Candidate>,
)
    requires
        0 <= k,
        ix.search_result(query, None, k, beam_width, beam::unbounded(), prep, t, found, r),
    ensures
        t.seen.contains(ix.base.medoid_id),
        beam::explored(
            &CodeSpace { index: ix, query, prep: &prep, filter: None },
            seq![ix.base.medoid_id],
            beam_width,
            t,
        ),
        found.len() <= k || found.len() <= ix.rerank_size,
        r.len() <= found.len(),
        r.len() <= k,
        ix.rerank_size > 0 && found.len() <= k ==> r.len() == found.len(),
{
    let space = CodeSpace { index: ix, query, prep: &prep, filter: None };
    let starts = seq![ix.base.medoid_id];
    assert(beam::reached(&space, starts, t.expanded, ix.base.medoid_id)) by {
        assert(starts[0] == ix.base.medoid_id);
    }
    if ix.rerank_size > 0 {
        let again = quantized::rescored(&ix.base, query@, found);
        let all = choose|all: Seq<Candidate>| #[trigger]
            candidate::same_items(all, again) && candidate::ranked(all) && r == candidate::first(
                all,
                k,
            );
        candidate::lemma_same_items(all, again);
    }
}

/// Vectors added without labels to an index with labels get labels that are all zero; one
/// without gets none.
pub proof fn bare_additions_have_zero_labels<'a, D: Distance>(
    pre: &IncrementalDiskANN<'a, D>,
    vectors: Seq<Vec<u32>>,
    post: &IncrementalDiskANN<'a, D>,
    r: Result<Vec<u64>, DiskAnnError>,
    i: int,
    f: int,
)
    requires
        IncrementalDiskANN::added(pre, vectors, post, r),
        r is Ok,
        0 <= i < vectors.len(),
        0 <= f < pre.num_label_fields,
    ensures
        post.delta_labels@.len() == pre.delta_labels@.len() + vectors.len(),
        ({
            let row = post.delta_labels@[pre.delta_labels@.len() + i]@;
            row.len() == pre.num_label_fields && row[f] == 0
        }),
{
    assert(incremental::zeros(pre.num_label_fields as int)[f] == 0);
}

/// Adding fails just when a vector has another length than those of the index; the first
/// such one is named, and nothing changes.
pub proof fn misfits_are_not_added<'a, D: Distance>(
    pre: &IncrementalDiskANN<'a, D>,
    vectors: Seq<Vec<u32>>,
    post: &IncrementalDiskANN<'a, D>,
    r: Result<Vec<u64>, DiskAnnError>,
)
    requires
        vectors.len() <= usize::MAX,
        IncrementalDiskANN::added(pre, vectors, post, r),
    ensures
        r is Ok <==> forall|i: int|
            0 <= i < vectors.len() ==> (#[trigger] vectors[i])@.len() == pre.dim,
        r matches Err(e) ==> *post == *pre && (e matches DiskAnnError::IndexError(
            Fault::AddedDimension { index: at, found, expected },
        ) && at < vectors.len() && expected == pre.dim && found == vectors[at as int]@.len()
            && found != expected && forall|i: int|
            0 <= i < at ==> (#[trigger] vectors[i])@.len() == pre.dim),
        vectors.len() == 0 ==> *post == *pre,
{
    building::lemma_mismatch(vectors, pre.dim as int, 0);
    match index::first_mismatch(vectors, pre.dim as int, 0) {
        Some(at) => {
            let v = vectors[at];
            assert(v@.len() == v.len());
        },
        None => {},
    }
}

/// After compaction a vector that had no labels has labels that are all zero.
pub proof fn missing_labels_become_zero<'a, D: Distance>(
    ix: &IncrementalDiskANN<'a, D>,
    pos: int,
    f: int,
)
    requires
        ix.label_at(pos) is None,
        0 <= f < ix.num_label_fields,
    ensures
        ix.kept_label(pos).len() == ix.num_label_fields,
        ix.kept_label(pos)[f] == 0,
{
}

/// The parameters that are taken where none are given: degree 32 and beam 256 for building,
/// and in a bundle degree 64, beam 128 and 1.2.
pub proof fn building_has_defaults()
    ensures
        index::BUILD_MAX_DEGREE == 32,
        index::BUILD_BEAM_WIDTH == 256,
        index::DISKANN_DEFAULT_MAX_DEGREE == 64,
        index::DISKANN_DEFAULT_BUILD_BEAM == 128,
        index::DISKANN_DEFAULT_ALPHA == 0x3f99_999a,
{
}

} // verus!
