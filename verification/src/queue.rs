//! Priority queues of search candidates.
use crate::candidate;
use crate::candidate::Scored;
use crate::word;
use vstd::prelude::*;

verus! {

/// What the candidates of a queue are ordered by: those that come out first are last.
pub open spec fn key_for(nearest_first: bool, dist: u32) -> int {
    if nearest_first {
        -word::order(dist)
    } else {
        word::order(dist)
    }
}

/// Where a candidate goes: behind the last whose key is not above its own.
pub open spec fn place_of<I>(nearest_first: bool, s: Seq<Scored<I>>, c: Scored<I>) -> int
    decreases s.len(),
{
    if s.len() == 0 || key_for(nearest_first, s.last().dist) <= key_for(nearest_first, c.dist) {
        s.len() as int
    } else {
        place_of(nearest_first, s.drop_last(), c)
    }
}

/// A queue with one more candidate.
pub open spec fn placed<I>(nearest_first: bool, s: Seq<Scored<I>>, c: Scored<I>) -> Seq<Scored<I>> {
    s.insert(place_of(nearest_first, s, c), c)
}

proof fn lemma_place<I>(nearest_first: bool, s: Seq<Scored<I>>, c: Scored<I>, at: int)
    requires
        0 <= at <= s.len(),
        forall|i: int|
            0 <= i < at ==> key_for(nearest_first, (#[trigger] s[i]).dist) <= key_for(
                nearest_first,
                c.dist,
            ),
        forall|i: int|
            at <= i < s.len() ==> key_for(nearest_first, c.dist) < key_for(
                nearest_first,
                (#[trigger] s[i]).dist,
            ),
    ensures
        place_of(nearest_first, s, c) == at,
    decreases s.len(),
{
    if at < s.len() {
        assert(s[s.len() - 1] == s.last());
        assert forall|i: int| 0 <= i < s.drop_last().len() implies s.drop_last()[i] == #[trigger] s[i] by {
        }
        lemma_place(nearest_first, s.drop_last(), c, at);
    } else if s.len() > 0 {
        assert(s[s.len() - 1] == s.last());
    }
}

/// Candidates of which the nearest, or the farthest, comes out first; of candidates at one
/// distance, the one that came last.
pub struct Queue<I> {
    items: Vec<Scored<I>>,
    nearest_first: bool,
}

impl<I> View for Queue<I> {
    type V = Seq<Scored<I>>;

    closed spec fn view(&self) -> Seq<Scored<I>> {
        self.items@
    }
}

impl<I: Copy> Queue<I> {
    /// Whether the nearest candidate comes out first.
    pub closed spec fn nearest_first(&self) -> bool {
        self.nearest_first
    }

    /// What comes out later is no nearer, or no farther, than what comes out first.
    pub closed spec fn wf(&self) -> bool {
        forall|i: int, j: int|
            0 <= i < j < self.items@.len() ==> self.key((#[trigger] self.items@[i]).dist)
                <= self.key((#[trigger] self.items@[j]).dist)
    }

    spec fn key(&self, dist: u32) -> int {
        key_for(self.nearest_first, dist)
    }

    /// The candidate at the end is the one that comes out first.
    pub proof fn lemma_last(&self)
        requires
            self.wf(),
            self@.len() > 0,
        ensures
            forall|i: int|
                0 <= i < self@.len() ==> if self.nearest_first() {
                    word::order(self@.last().dist) <= word::order((#[trigger] self@[i]).dist)
                } else {
                    word::order((#[trigger] self@[i]).dist) <= word::order(self@.last().dist)
                },
    {
        assert forall|i: int| 0 <= i < self@.len() implies if self.nearest_first() {
            word::order(self@.last().dist) <= word::order((#[trigger] self@[i]).dist)
        } else {
            word::order((#[trigger] self@[i]).dist) <= word::order(self@.last().dist)
        } by {
            let n = self@.len() - 1;
            if i < n {
                assert(self.key(self.items@[i].dist) <= self.key(self.items@[n].dist));
            }
        }
    }

    /// An empty queue.
    pub fn new(nearest_first: bool) -> (r: Queue<I>)
        ensures
            r.wf(),
            r.nearest_first() == nearest_first,
            r@ == Seq::<Scored<I>>::empty(),
    {
        Queue { items: Vec::new(), nearest_first }
    }

    /// How many candidates wait.
    pub fn len(&self) -> (r: usize)
        ensures
            r == self@.len(),
    {
        self.items.len()
    }

    fn key_of(&self, dist: u32) -> (r: i64)
        ensures
            r == self.key(dist),
    {
        if self.nearest_first {
            -word::order_of(dist)
        } else {
            word::order_of(dist)
        }
    }

    /// Adds a candidate.
    pub fn push(&mut self, c: Scored<I>)
        requires
            old(self).wf(),
        ensures
            final(self).wf(),
            final(self).nearest_first() == old(self).nearest_first(),
            final(self)@ == placed(old(self).nearest_first(), old(self)@, c),
            final(self)@.len() == old(self)@.len() + 1,
            forall|x: Scored<I>| #[trigger]
                final(self)@.contains(x) <==> old(self)@.contains(x) || x == c,
            forall|id: I| #[trigger]
                candidate::holds_id(final(self)@, id) <==> candidate::holds_id(old(self)@, id)
                    || id == c.id,
            candidate::distinct(old(self)@) && !candidate::holds_id(old(self)@, c.id)
                ==> candidate::distinct(final(self)@),
    {
        let k: i64 = self.key_of(c.dist);
        let mut lo: usize = 0;
        let mut hi: usize = self.items.len();
        while lo < hi
            invariant
                self.wf(),
                *self == *old(self),
                k == self.key(c.dist),
                lo <= hi <= self.items@.len(),
                forall|i: int| 0 <= i < lo ==> self.key((#[trigger] self.items@[i]).dist) <= k,
                forall|i: int|
                    hi <= i < self.items@.len() ==> k < self.key((#[trigger] self.items@[i]).dist),
            decreases hi - lo,
        {
            let mid: usize = lo + (hi - lo) / 2;
            let m: i64 = self.key_of(self.items[mid].dist);
            if m <= k {
                lo = mid + 1;
            } else {
                hi = mid;
            }
        }
        let ghost s = self.items@;
        self.items.insert(lo, c);
        let ghost t = self.items@;
        proof {
            lemma_place(self.nearest_first, s, c, lo as int);
            assert(t == s.insert(lo as int, c));
            assert(t[lo as int] == c);
            assert forall|i: int| 0 <= i < s.len() implies #[trigger] s[i] == t[
                if i < lo {
                    i
                } else {
                    i + 1
                }
            ] by {}
            assert forall|i: int| 0 <= i < t.len() && i != lo implies #[trigger] t[i] == s[
                if i < lo {
                    i
                } else {
                    i - 1
                }
            ] by {}
            assert forall|x: Scored<I>| #[trigger] t.contains(x) <==> s.contains(x) || x == c by {
                if s.contains(x) {
                    let i = choose|i: int| 0 <= i < s.len() && s[i] == x;
                    assert(t[
                        if i < lo {
                            i
                        } else {
                            i + 1
                        }
                    ] == x);
                }
            }
            assert forall|id: I| #[trigger]
                candidate::holds_id(t, id) <==> candidate::holds_id(s, id) || id == c.id by {
                if candidate::holds_id(s, id) {
                    let i = choose|i: int| 0 <= i < s.len() && (#[trigger] s[i]).id == id;
                    assert(t[
                        if i < lo {
                            i
                        } else {
                            i + 1
                        }
                    ].id == id);
                }
            }
        }
    }

    /// The candidate that comes out first.
    pub fn peek(&self) -> (r: Option<Scored<I>>)
        requires
            self.wf(),
        ensures
            r == if self@.len() > 0 {
                Some(self@.last())
            } else {
                None
            },
    {
        if self.items.len() > 0 {
            Some(self.items[self.items.len() - 1])
        } else {
            None
        }
    }

    /// Takes out the candidate that comes out first.
    pub fn pop(&mut self) -> (r: Option<Scored<I>>)
        requires
            old(self).wf(),
        ensures
            final(self).wf(),
            final(self).nearest_first() == old(self).nearest_first(),
            old(self)@.len() > 0 ==> r == Some(old(self)@.last()) && final(self)@
                == old(self)@.drop_last(),
            old(self)@.len() == 0 ==> r.is_none() && final(self)@ == old(self)@,
    {
        self.items.pop()
    }

    /// The candidates; what would come out first is last.
    pub fn into_vec(self) -> (r: Vec<Scored<I>>)
        ensures
            r@ == self@,
    {
        self.items
    }
}

} // verus!
