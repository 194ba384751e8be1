//! Which posting a vector belongs to, and how one that is too large is cut.
use crate::bisect;
use crate::bisect::Pair;
use crate::candidate;
use crate::candidate::Candidate;
use crate::candidate::Hit;
use crate::metric;
use crate::metric::Distance;
use crate::spfresh;
use crate::spfresh::SPFresh;
use crate::word;
use vstd::prelude::*;

verus! {

impl<'a, D: Distance> SPFresh<'a, D> {
    /// How far the centroid of a posting is from a vector.
    pub open spec fn away(&self, v: Seq<u32>, b: int) -> u32 {
        self.dist.eval_spec(v, self.centroid(b))
    }

    /// Among up to 4096 postings the nearest are found by their centroids, nearest first:
    /// as many as are asked for, or all; and one that is not found is no nearer than any
    /// that is.
    pub proof fn nearest_postings_are_found(
        &self,
        v: &[u32],
        n: int,
        hits: Seq<Hit>,
        r: Seq<Candidate>,
        b: int,
    )
        requires
            self.wf(),
            0 <= n,
            self.cid_block@.len() <= 4096,
            self.nearest_result(v, n, hits, r),
            self.is_posting(b),
        ensures
            r.len() <= n,
            candidate::distinct(r),
            forall|i: int|
                0 <= i < r.len() ==> self.is_posting((#[trigger] r[i]).id as int) && r[i].dist
                    == self.away(v@, r[i].id as int),
            forall|i: int, j: int|
                0 <= i < j < r.len() ==> word::rank((#[trigger] r[i]).dist) <= word::rank(
                    (#[trigger] r[j]).dist,
                ),
            candidate::holds_id(r, b as u32) || (r.len() == n && forall|i: int|
                0 <= i < r.len() ==> word::rank((#[trigger] r[i]).dist) <= word::rank(
                    self.away(v@, b),
                )),
    {
        let total = self.block_cid@.len() as int;
        let listed = self.centroids_upto(v@, total);
        self.lemma_centroids(v@, total);
        let sorted = choose|sorted: Seq<Candidate>| #[trigger]
            candidate::same_items(sorted, listed) && candidate::ranked(sorted) && r
                == candidate::first(sorted, n);
        candidate::lemma_same_items(listed, sorted);
        assert forall|i: int| 0 <= i < sorted.len() implies self.is_posting(
            (#[trigger] sorted[i]).id as int,
        ) && sorted[i].dist == self.away(v@, sorted[i].id as int) by {
            assert(sorted.contains(sorted[i]));
            assert(listed.contains(sorted[i]));
            let j = choose|j: int| 0 <= j < listed.len() && listed[j] == sorted[i];
            assert(self.is_posting(listed[j].id as int));
        }
        assert forall|i: int| 0 <= i < r.len() implies self.is_posting((#[trigger] r[i]).id as int)
            && r[i].dist == self.away(v@, r[i].id as int) by {
            assert(r[i] == sorted[i]);
        }
        assert forall|i: int, j: int| 0 <= i < j < r.len() implies word::rank(
            (#[trigger] r[i]).dist,
        ) <= word::rank((#[trigger] r[j]).dist) && r[i].id != r[j].id by {
            assert(r[i] == sorted[i] && r[j] == sorted[j]);
        }
        assert(candidate::holds_id(listed, b as u32));
        assert(candidate::holds_id(sorted, b as u32));
        let m = choose|m: int| 0 <= m < sorted.len() && (#[trigger] sorted[m]).id == b as u32;
        if m < r.len() {
            assert(r[m] == sorted[m]);
        } else {
            assert forall|i: int| 0 <= i < r.len() implies word::rank((#[trigger] r[i]).dist)
                <= word::rank(self.away(v@, b)) by {
                assert(r[i] == sorted[i]);
                assert(word::rank(sorted[i].dist) <= word::rank(sorted[m].dist));
            }
        }
    }

    proof fn lemma_nearer_new(&self, v: Seq<u32>, first: Option<Candidate>, upto: int)
        requires
            0 <= upto <= self.created@.len(),
        ensures
            ({
                let r = self.nearer_new(v, first, upto);
                &&& r matches Some(c) ==> r == first || (self.is_posting(c.id as int) && c.dist
                    == self.away(v, c.id as int) && self.created@.contains(c.id))
                &&& first is Some ==> r is Some && (r == first || word::less(
                    r->0.dist,
                    first->0.dist,
                ))
                &&& r is Some && r != first ==> exists|m: int|
                    0 <= m < upto && #[trigger] self.created@[m] == r->0.id && forall|i: int|
                        0 <= i < m && self.is_posting((#[trigger] self.created@[i]) as int)
                            ==> !word::at_most(self.away(v, self.created@[i] as int), r->0.dist)
                &&& forall|i: int|
                    0 <= i < upto && self.is_posting((#[trigger] self.created@[i]) as int)
                        && !word::is_nan(self.away(v, self.created@[i] as int)) ==> r is Some && (
                    word::is_nan(r->0.dist) || word::order(r->0.dist) <= word::order(
                        self.away(v, self.created@[i] as int),
                    ))
            }),
        decreases upto,
    {
        if upto > 0 {
            self.lemma_nearer_new(v, first, upto - 1);
            let c = self.created@[upto - 1];
            assert(self.created@.contains(c));
            let before = self.nearer_new(v, first, upto - 1);
            let r = self.nearer_new(v, first, upto);
            if r != before {
                assert(self.created@[upto - 1] == r->0.id);
                assert forall|i: int|
                    0 <= i < upto - 1 && self.is_posting(
                        (#[trigger] self.created@[i]) as int,
                    ) implies !word::at_most(
                    self.away(v, self.created@[i] as int),
                    r->0.dist,
                ) by {}
            }
        }
    }

    /// The posting that a vector is put into: a posting, with the distance of its centroid.
    /// The one that was found for the vector before is kept to as long as it is there, unless
    /// one that was added since is nearer; of several of these the first of the nearest is
    /// taken.
    pub proof fn chosen_posting_is_near(
        &self,
        v: &[u32],
        target: Option<u32>,
        hits: Seq<Hit>,
        found: Seq<Candidate>,
        r: Option<Candidate>,
        i: int,
    )
        requires
            self.wf(),
            self.is_choice(v, target, hits, found, r),
        ensures
            ({
                let kept = target is Some && self.is_posting(target->0 as int);
                &&& kept ==> r is Some && (r->0.id == target->0 || word::less(
                    r->0.dist,
                    self.away(v@, target->0 as int),
                ))
                &&& kept && r->0.id != target->0 ==> self.created@.contains(r->0.id)
                &&& kept && r->0.id != target->0 ==> exists|m: int|
                    0 <= m < self.created@.len() && #[trigger] self.created@[m] == r->0.id
                        && forall|j: int|
                        0 <= j < m && self.is_posting((#[trigger] self.created@[j]) as int)
                            ==> !word::at_most(self.away(v@, self.created@[j] as int), r->0.dist)
                &&& kept ==> r->0.dist == self.away(v@, r->0.id as int)
                &&& !kept && found.len() > 0 ==> r is Some && (r->0.id == found[0].id
                    || self.created@.contains(r->0.id))
                &&& !kept && found.len() == 0 && self.created@.len() == 0 ==> r is None
                &&& 0 <= i < self.created@.len() && self.is_posting(self.created@[i] as int)
                    && !word::is_nan(
                    self.away(v@, self.created@[i] as int),
                ) ==> r is Some && (word::is_nan(r->0.dist) || word::order(r->0.dist)
                    <= word::order(self.away(v@, self.created@[i] as int)))
            }),
    {
        let first = match target {
            Some(t) => if self.is_posting(t as int) {
                Some(Candidate { dist: self.dist.eval_spec(v@, self.centroid(t as int)), id: t })
            } else {
                spfresh::first_of(found)
            },
            None => spfresh::first_of(found),
        };
        self.lemma_nearer_new(v@, first, self.created@.len() as int);
    }

    proof fn lemma_best_target(&self, v: Seq<u32>, p: int, cands: Seq<u32>, upto: int)
        requires
            0 <= upto <= cands.len(),
        ensures
            ({
                let r = self.best_target(v, p, cands, upto);
                &&& r matches Some(c) ==> c.id != p && self.is_posting(c.id as int) && c.dist
                    == self.away(v, c.id as int) && cands.contains(c.id)
                &&& forall|i: int|
                    0 <= i < upto && (#[trigger] cands[i]) != p && self.is_posting(cands[i] as int)
                        ==> r is Some && word::rank(r->0.dist) <= word::rank(
                        self.away(v, cands[i] as int),
                    )
            }),
        decreases upto,
    {
        if upto > 0 {
            self.lemma_best_target(v, p, cands, upto - 1);
            assert(cands.contains(cands[upto - 1]));
        }
    }

    proof fn lemma_first_target(&self, v: Seq<u32>, p: int, cands: Seq<u32>, upto: int) -> (m: int)
        requires
            0 <= upto <= cands.len(),
            self.best_target(v, p, cands, upto) is Some,
        ensures
            0 <= m < upto,
            self.best_target(v, p, cands, upto)->0.id == cands[m],
            forall|i: int|
                0 <= i < m && (#[trigger] cands[i]) != p && self.is_posting(cands[i] as int)
                    ==> word::rank(self.best_target(v, p, cands, upto)->0.dist) < word::rank(
                    self.away(v, cands[i] as int),
                ),
        decreases upto,
    {
        self.lemma_best_target(v, p, cands, upto - 1);
        let before = self.best_target(v, p, cands, upto - 1);
        if before is Some && self.best_target(v, p, cands, upto) == before {
            self.lemma_first_target(v, p, cands, upto - 1)
        } else {
            upto - 1
        }
    }

    /// Of candidates that are equally near, an entry moves to the first.
    pub proof fn entries_move_to_the_first_of_the_nearest(&self, id: u64, p: int, cands: Seq<u32>)
        requires
            self.wanted(id, p, cands) is Some,
        ensures
            exists|m: int|
                0 <= m < cands.len() && #[trigger] cands[m] == self.wanted(id, p, cands)->0 && (
                forall|i: int|
                    0 <= i < m && (#[trigger] cands[i]) != p && self.is_posting(cands[i] as int)
                        ==> word::rank(
                        self.away(self.raw_at(id as int), cands[m] as int),
                    ) < word::rank(self.away(self.raw_at(id as int), cands[i] as int))),
    {
        let v = self.raw_at(id as int);
        self.lemma_best_target(v, p, cands, cands.len() as int);
        let m = self.lemma_first_target(v, p, cands, cands.len() as int);
        assert(cands[m] == self.wanted(id, p, cands)->0);
    }

    /// An entry of a posting moves to another exactly when that is nearer to its vector than
    /// the one it is in, and no other of those considered is nearer still.
    pub proof fn entries_move_to_nearer_postings(&self, id: u64, p: int, cands: Seq<u32>, i: int)
        requires
            0 <= i < cands.len(),
            cands[i] != p,
            self.is_posting(cands[i] as int),
            forall|b: int| #[trigger]
                self.is_posting(b) ==> !word::is_nan(self.away(self.raw_at(id as int), b)),
            self.is_posting(p),
        ensures
            ({
                let v = self.raw_at(id as int);
                match self.wanted(id, p, cands) {
                    Some(to) => {
                        &&& to != p
                        &&& self.is_posting(to as int)
                        &&& cands.contains(to)
                        &&& word::order(self.away(v, to as int)) < word::order(self.away(v, p))
                        &&& word::order(self.away(v, to as int)) <= word::order(
                            self.away(v, cands[i] as int),
                        )
                    },
                    None => word::order(self.away(v, p)) <= word::order(
                        self.away(v, cands[i] as int),
                    ),
                }
            }),
    {
        let v = self.raw_at(id as int);
        self.lemma_best_target(v, p, cands, cands.len() as int);
        let c = self.best_target(v, p, cands, cands.len() as int)->0;
        assert(self.is_posting(c.id as int));
        assert(!word::is_nan(self.away(v, c.id as int)));
        assert(!word::is_nan(self.away(v, cands[i] as int)));
        assert(!word::is_nan(self.away(v, p)));
        word::rank_refines_order(c.dist, self.away(v, cands[i] as int));
    }
}

/// The vectors on one side, in turn.
pub open spec fn members_of(vs: Seq<Vec<u32>>, side: Seq<bool>, which: bool, upto: int) -> Seq<
    Seq<u32>,
>
    decreases upto,
{
    if upto <= 0 {
        Seq::empty()
    } else if side[upto - 1] == which {
        members_of(vs, side, which, upto - 1).push(vs[upto - 1]@)
    } else {
        members_of(vs, side, which, upto - 1)
    }
}

proof fn lemma_members<D: Distance>(
    dist: D,
    vs: Seq<Vec<u32>>,
    side: Seq<bool>,
    which: bool,
    j: int,
    upto: int,
)
    requires
        0 <= upto <= vs.len(),
    ensures
        ({
            let own = members_of(vs, side, which, upto);
            &&& own.len() == bisect::side_count(side, which, upto)
            &&& own.len() <= upto
            &&& metric::column_sum(dist, own, j, own.len() as int) == bisect::side_sum(
                dist,
                vs,
                side,
                which,
                j,
                upto,
            )
        }),
    decreases upto,
{
    if upto > 0 {
        lemma_members(dist, vs, side, which, j, upto - 1);
        let before = members_of(vs, side, which, upto - 1);
        let own = members_of(vs, side, which, upto);
        if side[upto - 1] == which {
            lemma_column_prefix(dist, before, own, j, before.len() as int);
        }
    }
}

proof fn lemma_column_prefix<D: Distance>(
    dist: D,
    a: Seq<Seq<u32>>,
    b: Seq<Seq<u32>>,
    j: int,
    upto: int,
)
    requires
        0 <= upto <= a.len() <= b.len(),
        forall|i: int| 0 <= i < a.len() ==> a[i] == #[trigger] b[i],
    ensures
        metric::column_sum(dist, a, j, upto) == metric::column_sum(dist, b, j, upto),
    decreases upto,
{
    if upto > 0 {
        lemma_column_prefix(dist, a, b, j, upto - 1);
    }
}

/// The centroid of a side that is not empty is the mean of the vectors on it.
pub proof fn side_means_are_means<D: Distance>(
    dist: D,
    vs: Seq<Vec<u32>>,
    side: Seq<bool>,
    which: bool,
    j: int,
)
    requires
        vs.len() > 0,
        vs.len() <= usize::MAX,
        members_of(vs, side, which, vs.len() as int).len() > 0,
        0 <= j < vs[0]@.len(),
    ensures
        ({
            let own = members_of(vs, side, which, vs.len() as int);
            bisect::side_mean(dist, vs, side, which)[j] == dist.quotient_spec(
                metric::column_sum(dist, own, j, own.len() as int),
                dist.count_spec(own.len() as usize),
            )
        }),
{
    lemma_members(dist, vs, side, which, j, vs.len() as int);
}

/// The centroids before round `r` of cutting vectors in two: at first the first vector and
/// one farthest from it, and then the means of the sides of the round before.
pub open spec fn centres<D: Distance>(dist: D, vs: Seq<Vec<u32>>, far: int, r: nat) -> Pair
    decreases r, 0int,
{
    if r == 0 {
        Pair { low: vs[0]@, high: vs[far]@ }
    } else {
        bisect::side_means(dist, vs, in_round(dist, vs, far, (r - 1) as nat))
    }
}

/// Who is nearer to the second centroid in round `r`.
pub open spec fn in_round<D: Distance>(dist: D, vs: Seq<Vec<u32>>, far: int, r: nat) -> Seq<bool>
    decreases r, 1int,
{
    let c = centres(dist, vs, far, r);
    Seq::new(
        vs.len(),
        |i: int| word::less(dist.eval_spec(vs[i]@, c.high), dist.eval_spec(vs[i]@, c.low)),
    )
}

/// Someone is on each side.
pub open spec fn is_parting(side: Seq<bool>) -> bool {
    (exists|i: int| 0 <= i < side.len() && #[trigger] side[i]) && (exists|i: int|
        0 <= i < side.len() && !#[trigger] side[i])
}

proof fn lemma_rounds<D: Distance>(dist: D, vs: Seq<Vec<u32>>, far: int, r: nat, left: int)
    requires
        0 < left,
    ensures
        ({
            let (c, side) = bisect::settled(dist, vs, centres(dist, vs, far, r), left);
            &&& (forall|q: nat|
                r <= q < r + left ==> !bisect::one_sided(#[trigger] in_round(dist, vs, far, q)))
                ==> side == in_round(dist, vs, far, (r + left - 1) as nat) && c == centres(
                dist,
                vs,
                far,
                (r + left) as nat,
            )
            &&& (exists|q: nat|
                r <= q < r + left && bisect::one_sided(#[trigger] in_round(dist, vs, far, q)))
                ==> bisect::one_sided(side)
        }),
    decreases left,
{
    let c = centres(dist, vs, far, r);
    let side = bisect::sides(dist, vs, c);
    assert(side =~= in_round(dist, vs, far, r));
    if !bisect::one_sided(side) {
        assert(bisect::side_means(dist, vs, side) == centres(dist, vs, far, (r + 1) as nat));
        if left > 1 {
            lemma_rounds(dist, vs, far, (r + 1) as nat, left - 1);
            assert((r + 1) as nat + (left - 1) == r + left);
            if exists|q: nat|
                r <= q < r + left && bisect::one_sided(#[trigger] in_round(dist, vs, far, q)) {
                let q = choose|q: nat|
                    r <= q < r + left && bisect::one_sided(#[trigger] in_round(dist, vs, far, q));
                assert(q != r);
            }
        }
    }
}

/// Vectors are cut in two by five rounds: each goes to the nearer of two centroids, and
/// these move to the means. The centroids in the end are the means of the sides in the
/// end, and someone is on each side. Where a round leaves everyone on one side, the first
/// half and the second are cut apart.
pub proof fn cutting_takes_five_rounds<D: Distance>(dist: D, vs: Seq<Vec<u32>>)
    requires
        vs.len() >= 2,
    ensures
        ({
            let far = bisect::farthest(dist, vs, vs.len() as int);
            let (c, side) = bisect::bisected(dist, vs);
            &&& is_parting(side)
            &&& side.len() == vs.len()
            &&& c.low == bisect::side_mean(dist, vs, side, false)
            &&& c.high == bisect::side_mean(dist, vs, side, true)
            &&& (forall|q: nat| q < 5 ==> is_parting(#[trigger] in_round(dist, vs, far, q))) ==> side
                == in_round(dist, vs, far, 4)
            &&& (exists|q: nat| q < 5 && !is_parting(#[trigger] in_round(dist, vs, far, q)))
                ==> forall|i: int|
                0 <= i < side.len() ==> (#[trigger] side[i] <==> i >= vs.len() as int / 2)
        }),
{
    let n = vs.len() as int;
    let far = bisect::farthest(dist, vs, n);
    lemma_rounds(dist, vs, far, 0, 5);
    assert forall|q: nat| is_parting(#[trigger] in_round(dist, vs, far, q)) <==> !bisect::one_sided(
        in_round(dist, vs, far, q),
    ) by {
        lemma_parting(in_round(dist, vs, far, q));
    }
    let (c, side) = bisect::settled(
        dist,
        vs,
        Pair { low: vs[0]@, high: vs[far]@ },
        bisect::BISECT_ROUNDS as int,
    );
    assert(centres(dist, vs, far, 0) == (Pair { low: vs[0]@, high: vs[far]@ }));
    lemma_parting(side);
    let h = bisect::halves(n);
    assert(!h[0] && h[n - 1]);
    lemma_parting(h);
}

proof fn lemma_parting(side: Seq<bool>)
    ensures
        is_parting(side) <==> !bisect::one_sided(side),
{
    if !bisect::one_sided(side) {
        let a = choose|i: int| 0 <= i < side.len() && !#[trigger] side[i];
        let b = choose|i: int| 0 <= i < side.len() && #[trigger] side[i];
        assert(side[b] && !side[a]);
    }
    if is_parting(side) {
        let a = choose|i: int| 0 <= i < side.len() && !#[trigger] side[i];
        let b = choose|i: int| 0 <= i < side.len() && #[trigger] side[i];
        assert(side[b] && !side[a]);
    }
}

/// No vector is farther from the first than the one that cutting starts from.
pub proof fn cutting_starts_from_the_farthest<D: Distance>(dist: D, vs: Seq<Vec<u32>>, upto: int, i: int)
    requires
        2 <= upto <= vs.len(),
        0 < i < upto,
        forall|j: int|
            0 <= j < vs.len() ==> !word::is_nan(dist.eval_spec(vs[0]@, (#[trigger] vs[j])@)),
    ensures
        0 < bisect::farthest(dist, vs, upto) < upto,
        word::order(dist.eval_spec(vs[0]@, vs[i]@)) <= word::order(
            dist.eval_spec(vs[0]@, vs[bisect::farthest(dist, vs, upto)]@),
        ),
        bisect::farthest(dist, vs, upto) < i ==> word::order(dist.eval_spec(vs[0]@, vs[i]@))
            < word::order(dist.eval_spec(vs[0]@, vs[bisect::farthest(dist, vs, upto)]@)),
    decreases upto,
{
    if upto > 2 {
        let k = if i < upto - 1 {
            i
        } else {
            1
        };
        cutting_starts_from_the_farthest(dist, vs, upto - 1, k);
        let best = bisect::farthest(dist, vs, upto - 1);
        assert(!word::is_nan(dist.eval_spec(vs[0]@, vs[best]@)));
        assert(!word::is_nan(dist.eval_spec(vs[0]@, vs[upto - 1]@)));
    }
}

} // verus!
