//! Items with a distance, and the ordered collections that searches keep them in.
use crate::word;
use vstd::prelude::*;

verus! {

/// An item together with its distance from the query.
#[derive(Copy, Debug)]
pub struct Scored<I> {
    pub dist: u32,
    pub id: I,
}

impl<I: Copy> Clone for Scored<I> {
    fn clone(&self) -> (r: Self)
        ensures
            r == *self,
    {
        *self
    }
}

/// A node of a graph with its distance.
pub type Candidate = Scored<u32>;

/// An answer of an index whose ids are 64 bits wide.
pub type Hit = Scored<u64>;

/// No two items have one id.
pub open spec fn distinct<I>(s: Seq<Scored<I>>) -> bool {
    forall|i: int, j: int| 0 <= i < j < s.len() ==> (#[trigger] s[i]).id != (#[trigger] s[j]).id
}

/// Whether some item has this id.
pub open spec fn holds_id<I>(s: Seq<Scored<I>>, id: I) -> bool {
    exists|i: int| 0 <= i < s.len() && (#[trigger] s[i]).id == id
}

/// Distances never fall from one item to the next, in the total order.
pub open spec fn ranked<I>(s: Seq<Scored<I>>) -> bool {
    forall|i: int, j: int|
        0 <= i < j < s.len() ==> word::rank((#[trigger] s[i]).dist) <= word::rank(
            (#[trigger] s[j]).dist,
        )
}

/// The items of `s`, in any order.
pub open spec fn same_items<I>(s: Seq<Scored<I>>, t: Seq<Scored<I>>) -> bool {
    s.to_multiset() == t.to_multiset()
}

/// The first `k` items, or all of them when there are fewer.
pub open spec fn first<I>(s: Seq<Scored<I>>, k: int) -> Seq<Scored<I>> {
    s.take(
        if k <= s.len() {
            k
        } else {
            s.len() as int
        },
    )
}

/// An item put behind those that rank no higher.
pub open spec fn slotted<I>(s: Seq<Scored<I>>, c: Scored<I>) -> Seq<Scored<I>>
    decreases s.len(),
{
    if s.len() == 0 {
        seq![c]
    } else if word::rank(c.dist) < word::rank(s[0].dist) {
        seq![c] + s
    } else {
        seq![s[0]] + slotted(s.drop_first(), c)
    }
}

/// The items in rising rank. Those of one distance stay in their order.
pub open spec fn sorted<I>(s: Seq<Scored<I>>) -> Seq<Scored<I>>
    decreases s.len(),
{
    if s.len() == 0 {
        Seq::empty()
    } else {
        slotted(sorted(s.drop_last()), s.last())
    }
}

/// `t` holds the `k` items of `s` that rank lowest, or all of them when there are
/// fewer, in rising rank. Of items of one distance those that stand first in `s` come
/// first.
pub open spec fn lowest<I>(s: Seq<Scored<I>>, k: int, t: Seq<Scored<I>>) -> bool {
    &&& exists|all: Seq<Scored<I>>| #[trigger]
        same_items(all, s) && ranked(all) && t == first(all, k)
    &&& t == first(sorted(s), k)
}

/// Rearranging keeps every item, and ids that were distinct stay so.
pub proof fn lemma_same_items<I>(s: Seq<Scored<I>>, t: Seq<Scored<I>>)
    requires
        same_items(s, t),
    ensures
        s.len() == t.len(),
        distinct(s) ==> distinct(t),
        forall|c: Scored<I>| s.contains(c) <==> #[trigger] t.contains(c),
        forall|id: I| holds_id(s, id) <==> #[trigger] holds_id(t, id),
{
    broadcast use vstd::seq_lib::group_to_multiset_ensures;

    assert(s.len() == s.to_multiset().len());
    assert(t.len() == t.to_multiset().len());
    assert forall|c: Scored<I>| s.contains(c) <==> #[trigger] t.contains(c) by {
        assert(s.contains(c) <==> s.to_multiset().count(c) > 0);
        assert(t.contains(c) <==> t.to_multiset().count(c) > 0);
    }
    assert forall|id: I| holds_id(s, id) <==> #[trigger] holds_id(t, id) by {
        if holds_id(s, id) {
            let i = choose|i: int| 0 <= i < s.len() && (#[trigger] s[i]).id == id;
            assert(s.contains(s[i]));
            assert(t.contains(s[i]));
        }
        if holds_id(t, id) {
            let i = choose|i: int| 0 <= i < t.len() && (#[trigger] t[i]).id == id;
            assert(t.contains(t[i]));
            assert(s.contains(t[i]));
        }
    }
    if distinct(s) {
        assert(s.no_duplicates());
        s.lemma_multiset_has_no_duplicates();
        assert(t.to_multiset() =~= s.to_multiset());
        t.lemma_multiset_has_no_duplicates_conv();
        assert forall|i: int, j: int| 0 <= i < j < t.len() implies (#[trigger] t[i]).id != (
        #[trigger] t[j]).id by {
            assert(t.contains(t[i]) && t.contains(t[j]));
            assert(s.contains(t[i]) && s.contains(t[j]));
            let a = choose|a: int| 0 <= a < s.len() && s[a] == t[i];
            let b = choose|b: int| 0 <= b < s.len() && s[b] == t[j];
            assert(t[i] != t[j]);
            assert(a != b);
        }
    }
}

/// The items of two ranked sequences in rising rank, those of the first before others of
/// their distance.
spec fn merged<I>(a: Seq<Scored<I>>, b: Seq<Scored<I>>) -> Seq<Scored<I>>
    decreases a.len() + b.len(),
{
    if b.len() == 0 {
        a
    } else if a.len() == 0 {
        b
    } else if word::rank(b[0].dist) < word::rank(a[0].dist) {
        seq![b[0]] + merged(a, b.drop_first())
    } else {
        seq![a[0]] + merged(a.drop_first(), b)
    }
}

proof fn lemma_slotted_merged<I>(x: Seq<Scored<I>>, y: Seq<Scored<I>>, c: Scored<I>)
    ensures
        merged(x, slotted(y, c)) == slotted(merged(x, y), c),
    decreases x.len() + y.len(),
{
    let z = slotted(y, c);
    if x.len() == 0 {
        assert(merged(x, z) == z);
        if y.len() == 0 {
            assert(merged(x, y) =~= y);
        }
    } else if y.len() == 0 {
        assert(z =~= seq![c]);
        assert(z.drop_first() =~= y);
        if word::rank(c.dist) < word::rank(x[0].dist) {
            assert(merged(x, z.drop_first()) == x);
        } else {
            lemma_slotted_merged(x.drop_first(), y, c);
        }
    } else {
        let x1 = x.drop_first();
        let y1 = y.drop_first();
        if word::rank(c.dist) < word::rank(y[0].dist) {
            assert(z == seq![c] + y);
            assert(z[0] == c);
            assert(z.drop_first() =~= y);
            if word::rank(c.dist) < word::rank(x[0].dist) {
                let m = merged(x, y);
                assert(m[0] == x[0] || m[0] == y[0]);
            } else {
                lemma_slotted_merged(x1, y, c);
                let m = merged(x, y);
                assert(m == seq![x[0]] + merged(x1, y));
                assert(m[0] == x[0]);
                assert(m.drop_first() =~= merged(x1, y));
            }
        } else {
            assert(z == seq![y[0]] + slotted(y1, c));
            assert(z[0] == y[0]);
            assert(z.drop_first() =~= slotted(y1, c));
            let m = merged(x, y);
            if word::rank(y[0].dist) < word::rank(x[0].dist) {
                lemma_slotted_merged(x, y1, c);
                assert(m[0] == y[0]);
                assert(m.drop_first() =~= merged(x, y1));
            } else {
                lemma_slotted_merged(x1, y, c);
                assert(m[0] == x[0]);
                assert(m.drop_first() =~= merged(x1, y));
            }
        }
    }
}

proof fn lemma_sorted_parts<I>(a: Seq<Scored<I>>, b: Seq<Scored<I>>)
    ensures
        sorted(a + b) == merged(sorted(a), sorted(b)),
    decreases b.len(),
{
    if b.len() == 0 {
        assert(a + b =~= a);
    } else {
        let s = a + b;
        assert(s.drop_last() =~= a + b.drop_last());
        assert(s.last() == b.last());
        lemma_sorted_parts(a, b.drop_last());
        lemma_slotted_merged(sorted(a), sorted(b.drop_last()), b.last());
    }
}

/// Two ranked sequences merged into one.
fn merge<I: Copy>(a: &Vec<Scored<I>>, b: &Vec<Scored<I>>) -> (r: Vec<Scored<I>>)
    requires
        ranked(a@),
        ranked(b@),
    ensures
        ranked(r@),
        r@.to_multiset() == a@.to_multiset().add(b@.to_multiset()),
        r@ == merged(a@, b@),
{
    broadcast use vstd::seq_lib::group_to_multiset_ensures;

    let mut r: Vec<Scored<I>> = Vec::new();
    let mut i: usize = 0;
    let mut j: usize = 0;
    assert(a@.take(0) =~= Seq::empty());
    assert(b@.take(0) =~= Seq::empty());
    assert(r@.to_multiset() =~= a@.take(0).to_multiset().add(b@.take(0).to_multiset()));
    assert(a@.skip(0) =~= a@ && b@.skip(0) =~= b@);
    assert(r@ + merged(a@, b@) =~= merged(a@, b@));
    while i < a.len() || j < b.len()
        invariant
            i <= a@.len(),
            j <= b@.len(),
            ranked(a@),
            ranked(b@),
            ranked(r@),
            r@ + merged(a@.skip(i as int), b@.skip(j as int)) == merged(a@, b@),
            r@.to_multiset() == a@.take(i as int).to_multiset().add(
                b@.take(j as int).to_multiset(),
            ),
            forall|x: int, y: int|
                0 <= x < r@.len() && i <= y < a@.len() ==> word::rank((#[trigger] r@[x]).dist)
                    <= word::rank((#[trigger] a@[y]).dist),
            forall|x: int, y: int|
                0 <= x < r@.len() && j <= y < b@.len() ==> word::rank((#[trigger] r@[x]).dist)
                    <= word::rank((#[trigger] b@[y]).dist),
        decreases a@.len() - i + b@.len() - j,
    {
        broadcast use vstd::seq_lib::group_to_multiset_ensures;

        let left = j >= b.len() || (i < a.len() && word::rank_of(a[i].dist) <= word::rank_of(
            b[j].dist,
        ));
        let ghost was = r@;
        let ghost x = a@.skip(i as int);
        let ghost y = b@.skip(j as int);
        proof {
            if i < a@.len() {
                assert(x[0] == a@[i as int]);
                assert(x.drop_first() =~= a@.skip(i + 1));
            }
            if j < b@.len() {
                assert(y[0] == b@[j as int]);
                assert(y.drop_first() =~= b@.skip(j + 1));
            }
        }
        if left {
            r.push(a[i]);
            proof {
                let rest = merged(x.drop_first(), y);
                if y.len() == 0 {
                    assert(x =~= seq![x[0]] + x.drop_first());
                }
                assert(merged(x, y) == seq![x[0]] + rest);
                assert(r@ + rest =~= was + merged(x, y));
            }
            assert(a@.take(i + 1) =~= a@.take(i as int).push(a@[i as int]));
            assert(r@.to_multiset() =~= a@.take(i + 1).to_multiset().add(
                b@.take(j as int).to_multiset(),
            ));
            i = i + 1;
        } else {
            r.push(b[j]);
            proof {
                let rest = merged(x, y.drop_first());
                if x.len() == 0 {
                    assert(y =~= seq![y[0]] + y.drop_first());
                    assert(rest =~= y.drop_first());
                }
                assert(merged(x, y) == seq![y[0]] + rest);
                assert(r@ + rest =~= was + merged(x, y));
            }
            assert(b@.take(j + 1) =~= b@.take(j as int).push(b@[j as int]));
            assert(r@.to_multiset() =~= a@.take(i as int).to_multiset().add(
                b@.take(j + 1).to_multiset(),
            ));
            j = j + 1;
        }
    }
    assert(a@.take(a@.len() as int) =~= a@);
    assert(b@.take(b@.len() as int) =~= b@);
    proof {
        let rest = merged(a@.skip(a@.len() as int), b@.skip(b@.len() as int));
        assert(rest =~= Seq::empty());
        assert(r@ + rest =~= r@);
    }
    r
}

/// Sorts by rising distance in the total order.
pub fn sort<I: Copy>(v: Vec<Scored<I>>) -> (r: Vec<Scored<I>>)
    ensures
        ranked(r@),
        same_items(r@, v@),
        r@ == sorted(v@),
    decreases v@.len(),
{
    if v.len() <= 1 {
        proof {
            reveal_with_fuel(sorted, 2);
            if v@.len() == 1 {
                assert(v@.drop_last() =~= Seq::empty());
                assert(v@ =~= seq![v@[0]]);
            } else {
                assert(v@ =~= Seq::empty());
            }
        }
        return v;
    }
    let mid: usize = v.len() / 2;
    let mut right: Vec<Scored<I>> = Vec::new();
    let mut left: Vec<Scored<I>> = Vec::new();
    let mut i: usize = 0;
    while i < v.len()
        invariant
            mid == v@.len() / 2,
            i <= v@.len(),
            left@ == v@.take(
                if i <= mid {
                    i as int
                } else {
                    mid as int
                },
            ),
            right@ == v@.subrange(
                mid as int,
                if i <= mid {
                    mid as int
                } else {
                    i as int
                },
            ),
        decreases v@.len() - i,
    {
        if i < mid {
            left.push(v[i]);
        } else {
            right.push(v[i]);
        }
        i = i + 1;
    }
    assert(v@ =~= left@ + right@);
    proof {
        vstd::seq_lib::lemma_multiset_commutative(left@, right@);
        lemma_sorted_parts(left@, right@);
    }
    let left = sort(left);
    let right = sort(right);
    merge(&left, &right)
}

/// The `k` items that rank lowest, in rising rank.
pub fn take_lowest<I: Copy>(v: Vec<Scored<I>>, k: usize) -> (r: Vec<Scored<I>>)
    ensures
        lowest(v@, k as int, r@),
{
    let mut r = sort(v);
    let ghost all = r@;
    r.truncate(k);
    assert(same_items(all, v@) && ranked(all) && r@ =~= first(all, k as int));
    r
}

/// Sorting puts items in rising rank and leaves those of one rank in their order.
pub proof fn equals_keep_their_order<I>(s: Seq<Scored<I>>, place: int)
    ensures
        ranked(sorted(s)),
        sorted(s).filter(|c: Scored<I>| word::rank(c.dist) == place) == s.filter(
            |c: Scored<I>| word::rank(c.dist) == place,
        ),
    decreases s.len(),
{
    let here = |c: Scored<I>| word::rank(c.dist) == place;
    reveal(Seq::filter);
    if s.len() > 0 {
        equals_keep_their_order(s.drop_last(), place);
        lemma_slotted_rank(sorted(s.drop_last()), s.last());
        lemma_slotted_filter(sorted(s.drop_last()), s.last(), place);
    } else {
        assert(sorted(s).filter(here) =~= s.filter(here));
    }
}

proof fn lemma_slotted_rank<I>(s: Seq<Scored<I>>, c: Scored<I>)
    requires
        ranked(s),
    ensures
        ranked(slotted(s, c)),
        forall|i: int|
            0 <= i < slotted(s, c).len() ==> #[trigger] slotted(s, c)[i] == c || s.contains(
                slotted(s, c)[i],
            ),
    decreases s.len(),
{
    if s.len() > 0 {
        let rest = s.drop_first();
        if word::rank(c.dist) < word::rank(s[0].dist) {
            let out = seq![c] + s;
            assert forall|i: int| 0 <= i < out.len() implies #[trigger] out[i] == c || s.contains(
                out[i],
            ) by {
                if i > 0 {
                    assert(out[i] == s[i - 1]);
                }
            }
        } else {
            assert forall|i: int, j: int| 0 <= i < j < rest.len() implies word::rank(
                (#[trigger] rest[i]).dist,
            ) <= word::rank((#[trigger] rest[j]).dist) by {
                assert(rest[i] == s[i + 1] && rest[j] == s[j + 1]);
            }
            lemma_slotted_rank(rest, c);
            let tail = slotted(rest, c);
            let out = seq![s[0]] + tail;
            assert forall|i: int| 0 <= i < tail.len() implies word::rank(s[0].dist) <= word::rank(
                (#[trigger] tail[i]).dist,
            ) && (tail[i] == c || s.contains(tail[i])) by {
                if tail[i] != c {
                    let j = choose|j: int| 0 <= j < rest.len() && rest[j] == tail[i];
                    assert(s[j + 1] == tail[i]);
                }
            }
            assert forall|i: int| 0 <= i < out.len() implies #[trigger] out[i] == c || s.contains(
                out[i],
            ) by {
                if i > 0 {
                    assert(out[i] == tail[i - 1]);
                } else {
                    assert(out[0] == s[0]);
                }
            }
        }
    }
}

proof fn lemma_slotted_filter<I>(s: Seq<Scored<I>>, c: Scored<I>, place: int)
    requires
        ranked(s),
    ensures
        ({
            let here = |x: Scored<I>| word::rank(x.dist) == place;
            slotted(s, c).filter(here) == if word::rank(c.dist) == place {
                s.filter(here).push(c)
            } else {
                s.filter(here)
            }
        }),
    decreases s.len(),
{
    let here = |x: Scored<I>| word::rank(x.dist) == place;
    let one = seq![c];
    assert(one.filter(here) =~= if here(c) {
        seq![c]
    } else {
        Seq::empty()
    }) by {
        reveal(Seq::filter);
        assert(one.drop_last() =~= Seq::<Scored<I>>::empty());
        assert(Seq::<Scored<I>>::empty().filter(here) =~= Seq::empty());
    }
    if s.len() == 0 {
        assert(s.filter(here) =~= Seq::empty()) by {
            reveal(Seq::filter);
        }
    } else if word::rank(c.dist) < word::rank(s[0].dist) {
        Seq::filter_distributes_over_add(one, s, here);
        if here(c) {
            lemma_none_here(s, place);
            assert(one.filter(here) + s.filter(here) =~= s.filter(here).push(c));
        } else {
            assert(one.filter(here) + s.filter(here) =~= s.filter(here));
        }
    } else {
        let first = seq![s[0]];
        let rest = s.drop_first();
        assert forall|i: int, j: int| 0 <= i < j < rest.len() implies word::rank(
            (#[trigger] rest[i]).dist,
        ) <= word::rank((#[trigger] rest[j]).dist) by {
            assert(rest[i] == s[i + 1] && rest[j] == s[j + 1]);
        }
        lemma_slotted_filter(rest, c, place);
        Seq::filter_distributes_over_add(first, slotted(rest, c), here);
        Seq::filter_distributes_over_add(first, rest, here);
        assert(first + rest =~= s);
        if here(c) {
            assert(first.filter(here) + rest.filter(here).push(c) =~= (first.filter(here)
                + rest.filter(here)).push(c));
        }
    }
}

proof fn lemma_none_here<I>(s: Seq<Scored<I>>, place: int)
    requires
        ranked(s),
        s.len() > 0,
        place < word::rank(s[0].dist),
    ensures
        s.filter(|x: Scored<I>| word::rank(x.dist) == place).len() == 0,
{
    let here = |x: Scored<I>| word::rank(x.dist) == place;
    if s.filter(here).len() > 0 {
        let x = s.filter(here)[0];
        s.lemma_filter_pred(here, 0);
        assert(s.filter(here).contains(x));
        s.lemma_filter_contains_rev(here, x);
        let j = choose|j: int| 0 <= j < s.len() && s[j] == x;
        if j > 0 {
            assert(word::rank(s[0].dist) <= word::rank(s[j].dist));
        }
    }
}

} // verus!
