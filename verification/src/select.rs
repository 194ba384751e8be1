//! Keeping the nearest of the hits that come by.
use crate::candidate;
use crate::candidate::Hit;
use crate::queue;
use crate::queue::Queue;
use crate::word;
use vstd::prelude::*;

verus! {

/// Every distance is a number.
pub open spec fn numeric(all: Seq<Hit>) -> bool {
    forall|i: int| 0 <= i < all.len() ==> !word::is_nan((#[trigger] all[i]).dist)
}

/// The kept hits are `want` of the nearest, or all where there are fewer.
pub open spec fn is_best(all: Seq<Hit>, want: int, kept: Seq<Hit>) -> bool {
    &&& kept.len() == if all.len() <= want {
        all.len() as int
    } else {
        want
    }
    &&& candidate::distinct(kept)
    &&& forall|i: int| 0 <= i < kept.len() ==> all.contains(#[trigger] kept[i])
    &&& forall|j: int|
        0 <= j < all.len() && !candidate::holds_id(kept, (#[trigger] all[j]).id) ==> kept.len()
            == want && (numeric(all) ==> forall|i: int|
            0 <= i < kept.len() ==> word::order((#[trigger] kept[i]).dist) <= word::order(
                all[j].dist,
            ))
}

/// The distance that a hit must be below to be kept when `want` are asked for.
pub open spec fn bar(want: int, kept: Seq<Hit>) -> u32 {
    if kept.len() < want {
        word::INFINITY
    } else {
        kept.last().dist
    }
}

/// A hit was considered: it is kept where there is room, or in place of the worst where
/// it is nearer.
pub open spec fn joined_by(want: int, kept: Seq<Hit>, c: Hit) -> Seq<Hit> {
    if kept.len() < want {
        queue::placed(false, kept, c)
    } else if word::less(c.dist, kept.last().dist) {
        queue::placed(false, kept.drop_last(), c)
    } else {
        kept
    }
}

/// What is kept of hits that are considered in turn.
pub open spec fn gathered(all: Seq<Hit>, want: int) -> Seq<Hit>
    decreases all.len(),
{
    if all.len() == 0 {
        Seq::empty()
    } else {
        joined_by(want, gathered(all.drop_last(), want), all.last())
    }
}

/// What is kept of hits of which, in turn, those are considered whose bound is below the
/// bar.
pub open spec fn gathered_under(all: Seq<Hit>, bounds: Seq<Hit>, want: int) -> Seq<Hit>
    decreases all.len(),
{
    if all.len() == 0 {
        Seq::empty()
    } else {
        let kept = gathered_under(all.drop_last(), bounds.drop_last(), want);
        if word::less(bounds.last().dist, bar(want, kept)) {
            joined_by(want, kept, all.last())
        } else {
            kept
        }
    }
}

/// The nearest hits so far.
pub(crate) struct Best {
    queue: Queue<u64>,
    want: usize,
}

impl Best {
    /// The hits that are kept.
    pub(crate) closed spec fn kept(&self) -> Seq<Hit> {
        self.queue@
    }

    /// How many are asked for.
    pub(crate) closed spec fn want(&self) -> int {
        self.want as int
    }

    pub(crate) closed spec fn wf(&self) -> bool {
        self.queue.wf() && !self.queue.nearest_first() && self.want > 0
    }

    pub(crate) fn new(want: usize) -> (r: Self)
        requires
            want > 0,
        ensures
            r.wf(),
            r.want() == want,
            r.kept() == Seq::<Hit>::empty(),
            is_best(Seq::empty(), want as int, r.kept()),
    {
        Best { queue: Queue::new(false), want }
    }

    /// The distance that a hit must be below to be kept.
    pub(crate) fn bar(&self) -> (r: u32)
        requires
            self.wf(),
        ensures
            r == bar(self.want(), self.kept()),
    {
        if self.queue.len() < self.want {
            return word::INFINITY;
        }
        match self.queue.peek() {
            Some(c) => c.dist,
            None => word::INFINITY,
        }
    }

    /// Considers a hit.
    #[verifier::rlimit(40)]
    pub(crate) fn offer(&mut self, c: Hit, Ghost(all): Ghost<Seq<Hit>>)
        requires
            old(self).wf(),
            is_best(all, old(self).want(), old(self).kept()),
            !candidate::holds_id(all, c.id),
            candidate::distinct(all),
        ensures
            final(self).wf(),
            final(self).want() == old(self).want(),
            final(self).kept() == joined_by(old(self).want(), old(self).kept(), c),
            is_best(all.push(c), final(self).want(), final(self).kept()),
            numeric(all.push(c)) ==> word::order(bar(final(self).want(), final(self).kept()))
                <= word::order(bar(old(self).want(), old(self).kept())),
    {
        let ghost was = self.kept();
        let ghost more = all.push(c);
        let ghost want = self.want as int;
        proof {
            assert(more[all.len() as int] == c);
            assert forall|x: Hit| #[trigger] all.contains(x) implies more.contains(x) by {
                let i = choose|i: int| 0 <= i < all.len() && all[i] == x;
                assert(more[i] == x);
            }
            assert(more.contains(c));
            if candidate::holds_id(was, c.id) {
                let i = choose|i: int| 0 <= i < was.len() && (#[trigger] was[i]).id == c.id;
                assert(all.contains(was[i]));
                let j = choose|j: int| 0 <= j < all.len() && all[j] == was[i];
                assert(all[j].id == c.id);
            }
            if numeric(more) {
                assert forall|i: int| 0 <= i < all.len() implies !word::is_nan(
                    (#[trigger] all[i]).dist,
                ) by {
                    assert(more[i] == all[i]);
                }
                assert forall|i: int| 0 <= i < was.len() implies !word::is_nan(
                    (#[trigger] was[i]).dist,
                ) by {
                    assert(all.contains(was[i]));
                    let j = choose|j: int| 0 <= j < all.len() && all[j] == was[i];
                    assert(!word::is_nan(all[j].dist));
                }
                assert(!word::is_nan(more[all.len() as int].dist));
            }
        }
        if self.queue.len() < self.want {
            self.queue.push(c);
            proof {
                let now = self.kept();
                assert forall|i: int| 0 <= i < now.len() implies more.contains(#[trigger] now[i]) by {
                    assert(now.contains(now[i]));
                }
                assert forall|j: int| 0 <= j < more.len() implies candidate::holds_id(
                    now,
                    (#[trigger] more[j]).id,
                ) by {
                    if j < all.len() {
                        assert(more[j] == all[j]);
                        assert(candidate::holds_id(was, all[j].id));
                    }
                }
                if numeric(more) && now.len() == want {
                    assert(more.contains(now.last()));
                    let j = choose|j: int| 0 <= j < more.len() && more[j] == now.last();
                    assert(!word::is_nan(more[j].dist));
                }
            }
            return ;
        }
        let full = self.queue.peek();
        let worst: u32 = match full {
            Some(w) => w.dist,
            None => 0,
        };
        proof {
            self.queue.lemma_last();
        }
        if word::lt(c.dist, worst) {
            let ghost w = was.last();
            let _ = self.queue.pop();
            let ghost rest = self.queue@;
            proof {
                assert(rest == was.drop_last());
                assert forall|id: u64| #[trigger]
                    candidate::holds_id(was, id) <==> candidate::holds_id(rest, id) || id == w.id by {
                    if candidate::holds_id(was, id) {
                        let i = choose|i: int| 0 <= i < was.len() && (#[trigger] was[i]).id == id;
                        if i < rest.len() {
                            assert(rest[i].id == id);
                        }
                    }
                    if candidate::holds_id(rest, id) {
                        let i = choose|i: int| 0 <= i < rest.len() && (#[trigger] rest[i]).id == id;
                        assert(was[i].id == id);
                    }
                    assert(was[was.len() - 1].id == w.id);
                }
                assert(candidate::distinct(rest));
            }
            self.queue.push(c);
            proof {
                let now = self.kept();
                assert forall|i: int| 0 <= i < now.len() implies now[i] == c || exists|k: int|
                    0 <= k < was.len() - 1 && #[trigger] was[k] == now[i] by {
                    assert(now.contains(now[i]));
                    if now[i] != c {
                        assert(rest.contains(now[i]));
                        let k = choose|k: int| 0 <= k < rest.len() && rest[k] == now[i];
                        assert(was[k] == now[i]);
                    }
                }
                assert forall|i: int| 0 <= i < now.len() implies more.contains(#[trigger] now[i])
                    && (numeric(more) ==> word::order(now[i].dist) <= word::order(w.dist)) by {
                    if now[i] != c {
                        let k = choose|k: int| 0 <= k < was.len() - 1 && #[trigger] was[k] == now[i];
                        assert(all.contains(was[k]));
                    }
                }
                assert forall|j: int|
                    0 <= j < more.len() && !candidate::holds_id(
                        now,
                        (#[trigger] more[j]).id,
                    ) implies now.len() == want && (numeric(more) ==> forall|i: int|
                    0 <= i < now.len() ==> word::order((#[trigger] now[i]).dist) <= word::order(
                        more[j].dist,
                    )) by {
                    assert(j < all.len());
                    assert(more[j] == all[j]);
                    if numeric(more) {
                        assert forall|i: int| 0 <= i < now.len() implies word::order(
                            (#[trigger] now[i]).dist,
                        ) <= word::order(more[j].dist) by {
                            if candidate::holds_id(was, all[j].id) {
                                assert(all[j].id == w.id);
                                lemma_same_hit(all, was, j, was.len() - 1);
                            } else {
                                assert(word::order(was[was.len() - 1].dist) <= word::order(
                                    all[j].dist,
                                ));
                            }
                        }
                    }
                }
                if numeric(more) {
                    assert(more.contains(now[now.len() - 1]));
                }
            }
        } else {
            proof {
                assert forall|j: int|
                    0 <= j < more.len() && !candidate::holds_id(
                        was,
                        (#[trigger] more[j]).id,
                    ) implies was.len() == want && (numeric(more) ==> forall|i: int|
                    0 <= i < was.len() ==> word::order((#[trigger] was[i]).dist) <= word::order(
                        more[j].dist,
                    )) by {
                    if j < all.len() {
                        assert(more[j] == all[j]);
                    } else if numeric(more) {
                        assert forall|i: int| 0 <= i < was.len() implies word::order(
                            (#[trigger] was[i]).dist,
                        ) <= word::order(more[j].dist) by {
                            assert(!word::is_nan(was[was.len() - 1].dist));
                        }
                    }
                }
                assert forall|i: int| 0 <= i < was.len() implies more.contains(#[trigger] was[i]) by {
                    assert(all.contains(was[i]));
                }
            }
        }
    }

    /// None of the kept hits is beyond the bar.
    pub(crate) proof fn lemma_bar(&self)
        requires
            self.wf(),
            self.kept().len() >= self.want(),
        ensures
            forall|i: int|
                0 <= i < self.kept().len() ==> word::order((#[trigger] self.kept()[i]).dist)
                    <= word::order(bar(self.want(), self.kept())),
    {
        self.queue.lemma_last();
    }

    pub(crate) fn into_vec(self) -> (r: Vec<Hit>)
        ensures
            r@ == self.kept(),
    {
        self.queue.into_vec()
    }
}

/// Of hits with different ids, one with the id of a kept one is that one.
proof fn lemma_same_hit(all: Seq<Hit>, kept: Seq<Hit>, j: int, i: int)
    requires
        0 <= j < all.len(),
        0 <= i < kept.len(),
        all.contains(kept[i]),
        all[j].id == kept[i].id,
        candidate::distinct(all),
    ensures
        all[j] == kept[i],
{
    let m = choose|m: int| 0 <= m < all.len() && all[m] == kept[i];
    if m < j {
        assert(all[m].id != all[j].id);
    } else if j < m {
        assert(all[j].id != all[m].id);
    }
}

/// Once as many hits are kept as are wanted, one more that is no nearer than the worst of
/// them changes nothing; a nearer one takes the place of the worst.
pub proof fn nearer_hits_take_the_place_of_the_worst(all: Seq<Hit>, c: Hit, want: int)
    requires
        0 < want,
        gathered(all, want).len() == want,
    ensures
        ({
            let kept = gathered(all, want);
            let now = gathered(all.push(c), want);
            &&& !word::less(c.dist, kept.last().dist) ==> now == kept
            &&& word::less(c.dist, kept.last().dist) ==> now.len() == want && now.contains(c)
                && forall|i: int| 0 <= i < want - 1 ==> now.contains(#[trigger] kept[i])
        }),
{
    let kept = gathered(all, want);
    assert(all.push(c).drop_last() =~= all);
    let now = gathered(all.push(c), want);
    if word::less(c.dist, kept.last().dist) {
        let rest = kept.drop_last();
        lemma_place(rest, c);
        let at = queue::place_of(false, rest, c);
        assert(now == rest.insert(at, c));
        assert(now[at] == c);
        assert forall|i: int| 0 <= i < want - 1 implies now.contains(#[trigger] kept[i]) by {
            assert(rest[i] == kept[i]);
            if i < at {
                assert(now[i] == kept[i]);
            } else {
                assert(now[i + 1] == kept[i]);
            }
        }
    }
}

proof fn lemma_place(s: Seq<Hit>, c: Hit)
    ensures
        0 <= queue::place_of(false, s, c) <= s.len(),
    decreases s.len(),
{
    if s.len() > 0 {
        lemma_place(s.drop_last(), c);
    }
}

} // verus!
