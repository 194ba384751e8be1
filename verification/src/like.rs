//! Incremental indexes with the same content answer alike, and each search returns one list.
use crate::beam;
use crate::beam::SearchSpace;
use crate::beam::Trace;
use crate::candidate::Candidate;
use crate::candidate::Hit;
use crate::filter::Filter;
use crate::filtered;
use crate::image;
use crate::incremental;
use crate::incremental::IncrementalDiskANN;
use crate::incremental::UnifiedView;
use crate::index;
use crate::metric;
use crate::metric::Distance;
use crate::quantized;
use crate::quantizer;
use crate::quantizer::Prepared;
use crate::vamana;
use vstd::prelude::*;

verus! {

impl<'a, D: Distance> IncrementalDiskANN<'a, D> {
    /// The two indexes have the same vectors, links, deletions, labels, quantizer and
    /// metric; and the codes that the other has are those of this one.
    pub open spec fn is_like(&self, other: &Self) -> bool {
        &&& other.dim == self.dim
        &&& other.dist == self.dist
        &&& metric::rows(other.delta.vectors@) == metric::rows(self.delta.vectors@)
        &&& metric::rows(other.delta.graph@) == metric::rows(self.delta.graph@)
        &&& other.delta.entry_point == self.delta.entry_point
        &&& other.delta.max_degree == self.delta.max_degree
        &&& other.tombstones@ == self.tombstones@
        &&& self.has_same_base(other.base)
        &&& match self.base_labels {
            Some(l) => {
                &&& other.base_labels is Some
                &&& image::long_rows(other.base_labels->0@) == image::long_rows(l@)
                &&& image::long_rows(other.delta_labels@) == image::long_rows(self.delta_labels@)
                &&& other.num_label_fields == self.num_label_fields
            },
            None => other.base_labels is None,
        }
        &&& match self.quantizer {
            Some(q) => {
                &&& other.quantizer is Some
                &&& q.same(&other.quantizer->0)
                &&& other.code_size == self.code_size
                &&& other.rerank_size == self.rerank_size
            },
            None => other.quantizer is None,
        }
        &&& other.by_codes() ==> self.by_codes() && other.base_codes->0@ == self.base_codes->0@
    }
}

/// An index that is like a valid one is valid, and has its counts, its vectors by position and by id, its links, its deletions and its labels.
pub proof fn like_indexes_hold_the_same<D: Distance>(
    index: &IncrementalDiskANN<D>,
    other: &IncrementalDiskANN<D>,
)
    requires
        index.valid(),
        index.is_like(other),
    ensures
        other.valid(),
        other.base_count() == index.base_count(),
        other.delta.vectors@.len() == index.delta.vectors@.len(),
        other.total() == index.total(),
        other.tombstones@ == index.tombstones@,
        index.delta.tidy() ==> other.delta.tidy(),
        other.base_labels is Some == index.base_labels is Some,
        other.quantizer is Some == index.quantizer is Some,
        other.starts() == index.starts(),
        forall|pos: int| #[trigger] index.global(pos) == other.global(pos),
        forall|pos: int| #[trigger] index.live_at(pos) == other.live_at(pos),
        forall|id: u64| #[trigger] index.is_live(id) == other.is_live(id),
        forall|pos: int|
            0 <= pos < index.total() ==> #[trigger] index.vector_at(pos) == other.vector_at(pos),
        forall|query: Seq<u32>, pos: int|
            0 <= pos < index.total() ==> #[trigger] index.exact(query, pos) == other.exact(
                query,
                pos,
            ),
        forall|pos: int|
            0 <= pos < index.total() ==> #[trigger] index.links_at(pos) == other.links_at(pos),
        index.base_labels is Some ==> forall|pos: int|
            0 <= pos < index.total() ==> #[trigger] index.label_at(pos) == other.label_at(pos),
{
    let n = index.delta.vectors@.len();
    assert(metric::rows(index.delta.vectors@).len() == metric::rows(other.delta.vectors@).len());
    assert(metric::rows(index.delta.graph@).len() == metric::rows(other.delta.graph@).len());
    if index.base is Some {
        index::lemma_same_valid(&index.base->0, &other.base->0);
    }
    assert forall|i: int| 0 <= i < n implies (#[trigger] other.delta.vectors@[i])@
        == index.delta.vectors@[i]@ by {
        assert(metric::rows(index.delta.vectors@)[i] == metric::rows(other.delta.vectors@)[i]);
    }
    assert forall|i: int| 0 <= i < n implies (#[trigger] other.delta.graph@[i])@
        == index.delta.graph@[i]@ by {
        assert(metric::rows(index.delta.graph@)[i] == metric::rows(other.delta.graph@)[i]);
    }
    assert(other.delta.wf(other.dim as int));
    if index.delta.tidy() {
        assert forall|u: int| 0 <= u < n implies vamana::valid_row(
            (#[trigger] other.delta.graph@[u])@,
            u,
            n as int,
            other.delta.max_degree as int,
        ) by {
            assert(vamana::valid_row(
                index.delta.graph@[u]@,
                u,
                n as int,
                index.delta.max_degree as int,
            ));
        }
    }
    assert(other.codes_are_sound()) by {
        if index.quantizer is Some {
            let q = index.quantizer->0;
            let p = other.quantizer->0;
            quantizer::same_quantizers_code_alike(q, p, index.dist, Seq::empty());
            if other.base_codes is Some {
                let codes = other.base_codes->0@;
                assert(index.base_codes is Some && codes == index.base_codes->0@);
                assert forall|i: int| 0 <= i < other.base_count() implies p.is_code(
                    #[trigger] quantizer::code_at(codes, i, p.code_len()),
                ) by {
                    let code = quantizer::code_at(codes, i, q.code_len());
                    assert(q.is_code(code) == p.is_code(code));
                }
            }
        }
    }
    assert forall|pos: int| 0 <= pos < index.total() implies #[trigger] index.vector_at(pos)
        == other.vector_at(pos) by {
        if pos >= index.base_count() {
            assert(other.delta.vectors@[pos - index.base_count()]@ == index.delta.vectors@[pos
                - index.base_count()]@);
        }
    }
    assert forall|query: Seq<u32>, pos: int| 0 <= pos < index.total() implies #[trigger] index.exact(
        query,
        pos,
    ) == other.exact(query, pos) by {
        assert(index.vector_at(pos) == other.vector_at(pos));
    }
    assert forall|pos: int| 0 <= pos < index.total() implies #[trigger] index.links_at(pos)
        == other.links_at(pos) by {
        if pos >= index.base_count() {
            assert(other.delta.graph@[pos - index.base_count()]@ == index.delta.graph@[pos
                - index.base_count()]@);
            assert(index.links_at(pos) =~= other.links_at(pos));
        }
    }
    assert forall|pos: int| #[trigger] index.live_at(pos) == other.live_at(pos) by {
        assert(index.global(pos) == other.global(pos));
    }
    assert forall|id: u64| #[trigger] index.is_live(id) == other.is_live(id) by {
        if index.is_live(id) {
            let pos = choose|pos: int|
                0 <= pos < index.total() && #[trigger] index.global(pos) == id && index.live_at(pos);
            assert(other.global(pos) == id && other.live_at(pos));
        }
        if other.is_live(id) {
            let pos = choose|pos: int|
                0 <= pos < other.total() && #[trigger] other.global(pos) == id && other.live_at(pos);
            assert(index.global(pos) == id && index.live_at(pos));
        }
    }
    if index.base_labels is Some {
        let a = index.base_labels->0@;
        let b = other.base_labels->0@;
        assert(image::long_rows(a).len() == image::long_rows(b).len());
        assert(image::long_rows(index.delta_labels@).len() == image::long_rows(other.delta_labels@).len());
        assert forall|pos: int| 0 <= pos < index.total() implies #[trigger] index.label_at(pos)
            == other.label_at(pos) by {
            let local = pos - index.base_count();
            if local < 0 {
                if pos < a.len() {
                    assert(image::long_rows(a)[pos] == image::long_rows(b)[pos]);
                }
            } else if local < index.delta_labels@.len() {
                assert(image::long_rows(index.delta_labels@)[local] == image::long_rows(
                    other.delta_labels@,
                )[local]);
            }
        }
    }
}

proof fn lemma_same_views<D: Distance>(
    index: &IncrementalDiskANN<D>,
    other: &IncrementalDiskANN<D>,
    q1: &[u32],
    q2: &[u32],
    prep1: Option<&Prepared>,
    prep2: Option<&Prepared>,
    filter: Option<&Filter>,
)
    requires
        index.valid(),
        q1@.len() == index.dim,
        q1@ == q2@,
        index.is_like(other),
        prep1 is Some == prep2 is Some,
        prep1 matches Some(p) ==> index.by_codes() && index.quantizer->Some_0.is_prepared(
            index.dist,
            q1@,
            p,
        ),
        prep2 matches Some(p) ==> other.by_codes() && other.quantizer->Some_0.is_prepared(
            other.dist,
            q2@,
            p,
        ),
        filter is Some ==> index.base_labels is Some,
    ensures
        beam::same_space(
            &UnifiedView { index, query: q1, prep: prep1, filter },
            &UnifiedView { index: other, query: q2, prep: prep2, filter },
        ),
{
    like_indexes_hold_the_same(index, other);
    let a = UnifiedView { index, query: q1, prep: prep1, filter };
    let b = UnifiedView { index: other, query: q2, prep: prep2, filter };
    if prep1 is Some {
        quantizer::same_quantizers_code_alike(
            index.quantizer->0,
            other.quantizer->0,
            index.dist,
            q1@,
        );
    }
    assert forall|id: u32| a.holds(id) implies #[trigger] a.dist_of(id) == b.dist_of(id) by {
        if prep1 is Some && id < index.base_count() {
            let q = index.quantizer->0;
            let code = quantizer::code_at(index.base_codes->Some_0@, id as int, q.code_len());
            quantizer::same_quantizers_measure_alike(
                q,
                other.quantizer->0,
                index.dist,
                q1@,
                code,
            );
        } else {
            assert(index.exact(q1@, id as int) == other.exact(q1@, id as int));
        }
    }
    assert forall|id: u32| a.holds(id) implies #[trigger] a.links_of(id) == b.links_of(id) by {
        assert(index.links_at(id as int) == other.links_at(id as int));
    }
    assert forall|id: u32| a.holds(id) implies #[trigger] a.keeps(id) == b.keeps(id) by {
        assert(index.live_at(id as int) == other.live_at(id as int));
        if filter is Some {
            assert(index.label_at(id as int) == other.label_at(id as int));
        }
    }
}

/// Indexes that are like each other admit the same answers.
pub proof fn like_indexes_answer_alike<D: Distance>(
    index: &IncrementalDiskANN<D>,
    other: &IncrementalDiskANN<D>,
    query: &[u32],
    k: int,
    beam_width: int,
    prep: Prepared,
    t: Trace,
    found: Seq<Candidate>,
    kept: Seq<Candidate>,
    r: Seq<Hit>,
)
    requires
        index.valid(),
        index.takes(query@),
        k >= 0,
        index.is_like(other),
        index.by_codes() == other.by_codes(),
    ensures
        index.search_result(query, k, beam_width, prep, t, found, kept, r)
            == other.search_result(query, k, beam_width, prep, t, found, kept, r),
{
    like_indexes_hold_the_same(index, other);
    if index.starts().len() > 0 {
        let wanted = if index.by_codes() {
            quantized::search_k(index.rerank_size as int, k)
        } else {
            k
        };
        if index.by_codes() {
            quantizer::same_quantizers_code_alike(
                index.quantizer->0,
                other.quantizer->0,
                index.dist,
                query@,
            );
            assert(index.quantizer->0.is_prepared(index.dist, query@, &prep)
                == other.quantizer->0.is_prepared(other.dist, query@, &prep));
        }
        if index.by_codes() ==> index.quantizer->0.is_prepared(index.dist, query@, &prep) {
            let given = if index.by_codes() {
                Some(&prep)
            } else {
                None
            };
            let a = UnifiedView { index, query, prep: given, filter: None };
            let b = UnifiedView { index: other, query, prep: given, filter: None };
            lemma_same_views(index, other, query, query, given, given, None);
            incremental::lemma_view_closed(&a);
            assert forall|i: int| 0 <= i < index.starts().len() implies a.holds(
                #[trigger] index.starts()[i],
            ) by {
            }
            beam::same_spaces_are_searched_alike(
                &a,
                &b,
                index.starts(),
                beam_width,
                wanted,
                incremental::tombstone_bounds(beam_width, wanted, index.tombstones@.len() as int),
                t,
                found,
            );
            if beam::search_outcome(
                &a,
                index.starts(),
                beam_width,
                wanted,
                incremental::tombstone_bounds(beam_width, wanted, index.tombstones@.len() as int),
                t,
                found,
            ) {
                beam::answers_are_sound(
                    &a,
                    index.starts(),
                    beam_width,
                    wanted,
                    incremental::tombstone_bounds(
                        beam_width,
                        wanted,
                        index.tombstones@.len() as int,
                    ),
                    t,
                    found,
                );
                assert(index.rescored(query@, found) =~= other.rescored(query@, found)) by {
                    assert forall|i: int| 0 <= i < found.len() implies #[trigger] index.rescored(
                        query@,
                        found,
                    )[i] == other.rescored(query@, found)[i] by {
                        assert(a.holds(found[i].id));
                        assert(index.exact(query@, found[i].id as int) == other.exact(
                            query@,
                            found[i].id as int,
                        ));
                    }
                }
            }
            assert(index.hits(kept) =~= other.hits(kept)) by {
                assert forall|i: int| 0 <= i < kept.len() implies #[trigger] index.hits(kept)[i]
                    == other.hits(kept)[i] by {
                    assert(index.global(kept[i].id as int) == other.global(kept[i].id as int));
                }
            }
        }
    }
}

/// Indexes that are like each other admit the same answers to filtered searches.
pub proof fn like_indexes_filter_alike<D: Distance>(
    index: &IncrementalDiskANN<D>,
    other: &IncrementalDiskANN<D>,
    query: &[u32],
    k: int,
    beam_width: int,
    filter: &Filter,
    t: Trace,
    found: Seq<Candidate>,
    r: Seq<Hit>,
)
    requires
        index.valid(),
        index.takes(query@),
        index.is_like(other),
        index.base_labels is Some,
    ensures
        index.filtered_result(query, k, beam_width, filter, t, found, r) == other.filtered_result(
            query,
            k,
            beam_width,
            filter,
            t,
            found,
            r,
        ),
{
    like_indexes_hold_the_same(index, other);
    if index.starts().len() > 0 {
        let a = UnifiedView { index, query, prep: None, filter: Some(filter) };
        let b = UnifiedView { index: other, query, prep: None, filter: Some(filter) };
        lemma_same_views(index, other, query, query, None, None, Some(filter));
        incremental::lemma_view_closed(&a);
        beam::same_spaces_are_searched_alike(
            &a,
            &b,
            index.starts(),
            beam_width,
            k,
            filtered::filtered_config(beam_width, k),
            t,
            found,
        );
        assert(index.hits(found) =~= other.hits(found)) by {
            assert forall|i: int| 0 <= i < found.len() implies #[trigger] index.hits(found)[i]
                == other.hits(found)[i] by {
                assert(index.global(found[i].id as int) == other.global(found[i].id as int));
            }
        }
    }
}

/// Two searches for one query, of one index or of two that are like each other, return
/// the same list.
pub proof fn like_indexes_return_one_list<D: Distance>(
    index: &IncrementalDiskANN<D>,
    other: &IncrementalDiskANN<D>,
    q1: &[u32],
    q2: &[u32],
    k: int,
    beam_width: int,
    prep1: Prepared,
    t1: Trace,
    found1: Seq<Candidate>,
    kept1: Seq<Candidate>,
    r1: Seq<Hit>,
    prep2: Prepared,
    t2: Trace,
    found2: Seq<Candidate>,
    kept2: Seq<Candidate>,
    r2: Seq<Hit>,
)
    requires
        index.valid(),
        index.takes(q1@),
        q1@ == q2@,
        k >= 0,
        index.is_like(other),
        index.by_codes() == other.by_codes(),
        index.search_result(q1, k, beam_width, prep1, t1, found1, kept1, r1),
        other.search_result(q2, k, beam_width, prep2, t2, found2, kept2, r2),
    ensures
        r1 == r2,
{
    like_indexes_hold_the_same(index, other);
    if index.starts().len() == 0 {
        assert(r1 =~= r2);
    } else {
        let wanted = if index.by_codes() {
            quantized::search_k(index.rerank_size as int, k)
        } else {
            k
        };
        let (g1, g2) = if index.by_codes() {
            (Some(&prep1), Some(&prep2))
        } else {
            (None, None)
        };
        let a = UnifiedView { index, query: q1, prep: g1, filter: None };
        let b = UnifiedView { index: other, query: q2, prep: g2, filter: None };
        lemma_same_views(index, other, q1, q2, g1, g2, None);
        incremental::lemma_view_closed(&a);
        assert forall|i: int| 0 <= i < index.starts().len() implies a.holds(
            #[trigger] index.starts()[i],
        ) by {
        }
        let bounds = incremental::tombstone_bounds(
            beam_width,
            wanted,
            index.tombstones@.len() as int,
        );
        beam::searches_agree(
            &a,
            &b,
            index.starts(),
            beam_width,
            wanted,
            bounds,
            t1,
            found1,
            t2,
            found2,
        );
        beam::answers_are_sound(&a, index.starts(), beam_width, wanted, bounds, t1, found1);
        assert(index.rescored(q1@, found1) =~= other.rescored(q2@, found1)) by {
            assert forall|i: int| 0 <= i < found1.len() implies #[trigger] index.rescored(
                q1@,
                found1,
            )[i] == other.rescored(q2@, found1)[i] by {
                assert(a.holds(found1[i].id));
                assert(index.exact(q1@, found1[i].id as int) == other.exact(
                    q1@,
                    found1[i].id as int,
                ));
            }
        }
        assert(kept1 == kept2);
        lemma_same_hits(index, other, kept1);
    }
}

proof fn lemma_same_hits<D: Distance>(
    index: &IncrementalDiskANN<D>,
    other: &IncrementalDiskANN<D>,
    kept: Seq<Candidate>,
)
    requires
        forall|pos: int| #[trigger] index.global(pos) == other.global(pos),
    ensures
        index.hits(kept) == other.hits(kept),
{
    assert(index.hits(kept) =~= other.hits(kept)) by {
        assert forall|i: int| 0 <= i < kept.len() implies #[trigger] index.hits(kept)[i]
            == other.hits(kept)[i] by {
            assert(index.global(kept[i].id as int) == other.global(kept[i].id as int));
        }
    }
}

/// Two filtered searches for one query, of one index or of two that are like each other,
/// return the same list.
pub proof fn like_indexes_filter_to_one_list<D: Distance>(
    index: &IncrementalDiskANN<D>,
    other: &IncrementalDiskANN<D>,
    q1: &[u32],
    q2: &[u32],
    k: int,
    beam_width: int,
    filter: &Filter,
    t1: Trace,
    found1: Seq<Candidate>,
    r1: Seq<Hit>,
    t2: Trace,
    found2: Seq<Candidate>,
    r2: Seq<Hit>,
)
    requires
        index.valid(),
        index.takes(q1@),
        q1@ == q2@,
        index.is_like(other),
        index.base_labels is Some,
        index.filtered_result(q1, k, beam_width, filter, t1, found1, r1),
        other.filtered_result(q2, k, beam_width, filter, t2, found2, r2),
    ensures
        r1 == r2,
{
    like_indexes_hold_the_same(index, other);
    if index.starts().len() == 0 {
        assert(r1 =~= r2);
    } else {
        let a = UnifiedView { index, query: q1, prep: None, filter: Some(filter) };
        let b = UnifiedView { index: other, query: q2, prep: None, filter: Some(filter) };
        lemma_same_views(index, other, q1, q2, None, None, Some(filter));
        incremental::lemma_view_closed(&a);
        beam::searches_agree(
            &a,
            &b,
            index.starts(),
            beam_width,
            k,
            filtered::filtered_config(beam_width, k),
            t1,
            found1,
            t2,
            found2,
        );
        lemma_same_hits(index, other, found1);
    }
}

/// An index is like itself.
pub proof fn index_is_like_itself<D: Distance>(index: &IncrementalDiskANN<D>)
    ensures
        index.is_like(index),
{
}

/// An index that was read back is like the one that was written, and goes by codes like
/// it, unless its codes fill no byte.
pub proof fn read_back_index_is_like<D: Distance>(
    index: &IncrementalDiskANN<D>,
    other: &IncrementalDiskANN<D>,
)
    requires
        index.reads_back_as(other),
    ensures
        index.is_like(other),
        (index.by_codes() ==> index.base_codes->0@.len() > 0) ==> index.by_codes()
            == other.by_codes(),
{
}

/// What a search and a filtered search without a filter, or without labels, return for
/// one query is the same list.
pub proof fn unfiltered_search_is_plain<D: Distance>(
    index: &IncrementalDiskANN<D>,
    query: &[u32],
    k: usize,
    beam_width: usize,
    filter: &Filter,
    plain: Seq<Hit>,
    r: Seq<Hit>,
)
    requires
        index.valid(),
        index.takes(query@),
        filter is NoFilter || index.base_labels is None,
        index.finds(query, k, beam_width, plain),
        index.finds_filtered(query, k, beam_width, filter, r),
    ensures
        r == plain,
{
    let (p1, t1, f1, k1) = choose|
        prep: Prepared,
        t: Trace,
        found: Seq<Candidate>,
        kept: Seq<Candidate>,
    | #[trigger]
        index.search_result(query, k as int, beam_width as int, prep, t, found, kept, plain);
    let (p2, t2, f2, k2) = choose|
        prep: Prepared,
        t: Trace,
        found: Seq<Candidate>,
        kept: Seq<Candidate>,
    | #[trigger]
        index.search_result(query, k as int, beam_width as int, prep, t, found, kept, r);
    index_is_like_itself(index);
    like_indexes_return_one_list(
        index,
        index,
        query,
        query,
        k as int,
        beam_width as int,
        p1,
        t1,
        f1,
        k1,
        plain,
        p2,
        t2,
        f2,
        k2,
        r,
    );
}

} // verus!
