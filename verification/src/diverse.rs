//! What the neighbours of a node are like: near, and none behind another.
use crate::candidate;
use crate::candidate::Candidate;
use crate::prune;
use crate::prune::Pairs;
use crate::word;
use vstd::prelude::*;

verus! {

/// Threshold number `t`: 1.0, and then each 1.2 times the one before.
pub open spec fn threshold<P: Pairs>(pairs: &P, t: nat) -> u32
    decreases t,
{
    if t == 0 {
        0x3f80_0000
    } else {
        pairs.product_of(threshold(pairs, (t - 1) as nat), 0x3f99_999a)
    }
}

/// A pruning with parameter `alpha` makes a pass at threshold number `t`: at 1.0 in any
/// case, and at those after it as long as they are not above `alpha`, which counts as 1.0
/// when smaller.
pub open spec fn is_used<P: Pairs>(pairs: &P, alpha: u32, t: nat) -> bool {
    t < 1024 && forall|s: nat|
        s <= t ==> word::at_most(#[trigger] threshold(pairs, s), alpha) || word::at_most(
            threshold(pairs, s),
            0x3f80_0000,
        )
}

/// Candidate `s`, which is nearer to the node, hides candidate `i` at a threshold: from
/// `i` it is farther to the node than to `s`, by more than the threshold times, or the
/// two coincide.
pub open spec fn hides<P: Pairs>(pairs: &P, near: Seq<Candidate>, s: int, i: int, level: u32) -> bool {
    let apart = pairs.pair(near[i].id, near[s].id);
    &&& s < i
    &&& if word::order(apart) == 0 {
        word::less(level, word::INFINITY)
    } else {
        word::less(level, pairs.quotient_of(near[i].dist, apart))
    }
}

/// One of the first `upto` picks hides candidate `i` at threshold number `t`.
pub open spec fn is_hidden<P: Pairs>(
    pairs: &P,
    near: Seq<Candidate>,
    picks: Seq<int>,
    upto: int,
    i: int,
    t: nat,
) -> bool {
    exists|j: int| 0 <= j < upto && #[trigger] hides(pairs, near, picks[j], i, threshold(pairs, t))
}

/// The candidates other than the node, nearest first; none of them is missing.
pub open spec fn lists_others(node: u32, cands: Seq<Candidate>, near: Seq<Candidate>) -> bool {
    &&& forall|i: int|
        0 <= i < near.len() ==> cands.contains(#[trigger] near[i]) && near[i].id != node
    &&& forall|i: int|
        0 <= i < cands.len() && (#[trigger] cands[i]).id != node ==> candidate::holds_id(
            near,
            cands[i].id,
        )
    &&& forall|i: int, j: int|
        0 <= i < j < near.len() ==> word::rank((#[trigger] near[i]).dist) <= word::rank(
            (#[trigger] near[j]).dist,
        )
    &&& candidate::distinct(cands) ==> candidate::distinct(near)
}

/// The row names the picked candidates in turn: different ones, and as many as there are
/// or as the row may hold.
pub open spec fn is_row_of(near: Seq<Candidate>, max_degree: int, picks: Seq<int>, r: Seq<u32>) -> bool {
    &&& r.len() == picks.len()
    &&& forall|j: int|
        0 <= j < picks.len() ==> 0 <= #[trigger] picks[j] < near.len() && r[j] == near[picks[j]].id
    &&& picks.no_duplicates()
    &&& r.len() == if near.len() <= max_degree {
        near.len() as int
    } else {
        max_degree
    }
    &&& r.len() > 0 ==> picks[0] == 0
}

/// Where candidate `i` is left out though nothing picked hides it at threshold number `t`,
/// entry `j` was picked while nothing before it hid it there or at a lower threshold.
pub open spec fn yields_to<P: Pairs>(
    pairs: &P,
    near: Seq<Candidate>,
    picks: Seq<int>,
    t: nat,
    i: int,
    j: int,
) -> bool {
    !picks.contains(i) && !is_hidden(pairs, near, picks, picks.len() as int, i, t) ==> exists|s: nat|
        s <= t && !#[trigger] is_hidden(pairs, near, picks, j, picks[j], s)
}

/// A candidate that nothing picked hides at a threshold goes before all that are hidden
/// there.
pub open spec fn takes_unhidden_first<P: Pairs>(
    pairs: &P,
    alpha: u32,
    near: Seq<Candidate>,
    picks: Seq<int>,
) -> bool {
    forall|t: nat, i: int, j: int|
        is_used(pairs, alpha, t) && !word::less(threshold(pairs, t), word::ZERO) && 0 <= i
            < near.len() && 0 <= j < picks.len() ==> #[trigger] yields_to(
            pairs,
            near,
            picks,
            t,
            i,
            j,
        )
}

/// Entry `j` is hidden by those before it at every threshold in use.
pub open spec fn is_filler<P: Pairs>(
    pairs: &P,
    alpha: u32,
    near: Seq<Candidate>,
    picks: Seq<int>,
    j: int,
) -> bool {
    forall|s: nat|
        is_used(pairs, alpha, s) ==> #[trigger] is_hidden(pairs, near, picks, j, picks[j], s)
}

/// What is hidden at every threshold in use only fills what room is left, nearest first.
pub open spec fn fills_nearest_first<P: Pairs>(
    pairs: &P,
    alpha: u32,
    near: Seq<Candidate>,
    picks: Seq<int>,
) -> bool {
    forall|i: int, j: int|
        0 <= j < picks.len() && is_filler(pairs, alpha, near, picks, j) && 0 <= i < picks[j]
            ==> #[trigger] picks.take(j).contains(i)
}

proof fn lemma_thresholds<P: Pairs>(pairs: &P, top: u32, from: nat, most: nat, k: int)
    requires
        0 <= k,
    ensures
        ({
            let l = prune::levels_from(pairs, threshold(pairs, from), top, most);
            &&& l.len() <= most
            &&& k < l.len() ==> l[k] == threshold(pairs, (from + k) as nat) && forall|s: nat|
                from <= s <= from + k ==> word::at_most(#[trigger] threshold(pairs, s), top)
            &&& k < most && (forall|s: nat|
                from <= s <= from + k ==> word::at_most(#[trigger] threshold(pairs, s), top)) ==> k
                < l.len()
        }),
    decreases most,
{
    if most > 0 && word::at_most(threshold(pairs, from), top) {
        assert(pairs.product_of(threshold(pairs, from), prune::LEVEL_STEP) == threshold(
            pairs,
            (from + 1) as nat,
        ));
        let l = prune::levels_from(pairs, threshold(pairs, from), top, most);
        let rest = prune::levels_from(
            pairs,
            threshold(pairs, (from + 1) as nat),
            top,
            (most - 1) as nat,
        );
        assert(l == seq![threshold(pairs, from)] + rest);
        if k > 0 {
            lemma_thresholds(pairs, top, (from + 1) as nat, (most - 1) as nat, k - 1);
            assert(from + 1 + (k - 1) == from + k);
        } else {
            lemma_thresholds(pairs, top, (from + 1) as nat, (most - 1) as nat, 0);
        }
    }
}

proof fn lemma_levels<P: Pairs>(pairs: &P, alpha: u32, t: nat)
    ensures
        is_used(pairs, alpha, t) <==> t < prune::levels(pairs, alpha).len(),
        t < prune::levels(pairs, alpha).len() ==> prune::levels(pairs, alpha)[t as int]
            == threshold(pairs, t),
{
    let top = word::max_of(alpha, word::ONE);
    assert(threshold(pairs, 0) == word::ONE);
    lemma_thresholds(pairs, top, 0, 1024, t as int);
    assert forall|w: u32| #[trigger] word::at_most(w, top) <==> word::at_most(w, alpha)
        || word::at_most(w, word::ONE) by {}
    if t < prune::levels(pairs, alpha).len() {
        assert(is_used(pairs, alpha, t));
    }
    if is_used(pairs, alpha, t) {
        assert forall|s: nat| 0 <= s <= t implies word::at_most(
            #[trigger] threshold(pairs, s),
            top,
        ) by {}
    }
}

proof fn lemma_hidden<P: Pairs>(
    pairs: &P,
    near: Seq<Candidate>,
    picks: Seq<int>,
    upto: int,
    i: int,
    t: nat,
)
    requires
        0 <= upto <= picks.len(),
        !word::less(threshold(pairs, t), word::ZERO),
    ensures
        is_hidden(pairs, near, picks, upto, i, t) <==> prune::occluded(
            pairs,
            near,
            picks.take(upto),
            i,
            threshold(pairs, t),
        ),
{
    let part = picks.take(upto);
    let level = threshold(pairs, t);
    if is_hidden(pairs, near, picks, upto, i, t) {
        let j = choose|j: int| 0 <= j < upto && #[trigger] hides(pairs, near, picks[j], i, level);
        assert(part[j] == picks[j]);
        assert(word::less(level, prune::ratio(pairs, near, i, part[j])));
    }
    if prune::occluded(pairs, near, part, i, level) {
        let j = choose|j: int|
            0 <= j < part.len() && (#[trigger] part[j]) < i && word::less(
                level,
                prune::ratio(pairs, near, i, part[j]),
            );
        assert(hides(pairs, near, picks[j], i, level));
    }
}

/// So the picks stand after some passes: different candidates, each of which nothing that
/// was picked before it occluded at the level of its pass.
spec fn are_admitted<P: Pairs>(
    pairs: &P,
    near: Seq<Candidate>,
    max_degree: int,
    levels: Seq<u32>,
    count: int,
    picks: Seq<int>,
) -> bool {
    &&& picks.len() <= max_degree
    &&& picks.no_duplicates()
    &&& forall|j: int|
        0 <= j < picks.len() ==> 0 <= #[trigger] picks[j] < near.len() && exists|c: int|
            0 <= c < count && !#[trigger] prune::occluded(
                pairs,
                near,
                picks.take(j),
                picks[j],
                levels[c],
            )
}

proof fn lemma_pass<P: Pairs>(
    pairs: &P,
    near: Seq<Candidate>,
    max_degree: int,
    levels: Seq<u32>,
    count: int,
    picks: Seq<int>,
    upto: int,
)
    requires
        0 < count <= levels.len(),
        0 <= upto <= near.len(),
        0 <= max_degree,
        are_admitted(pairs, near, max_degree, levels, count - 1, picks),
    ensures
        ({
            let now = prune::pass(pairs, near, max_degree, levels[count - 1], picks, upto);
            &&& are_admitted(pairs, near, max_degree, levels, count, now)
            &&& picks.len() <= now.len()
            &&& now.take(picks.len() as int) == picks
            &&& now.len() >= max_degree || forall|i: int|
                0 <= i < upto && !now.contains(i) ==> #[trigger] prune::occluded(
                    pairs,
                    near,
                    now,
                    i,
                    levels[count - 1],
                )
            &&& picks.len() == 0 && upto > 0 && max_degree > 0 && !word::less(
                levels[count - 1],
                word::ZERO,
            ) ==> now.len() > 0 && now[0] == 0
        }),
    decreases upto,
{
    let level = levels[count - 1];
    let now = prune::pass(pairs, near, max_degree, level, picks, upto);
    if upto <= 0 {
        assert forall|j: int| 0 <= j < picks.len() implies 0 <= #[trigger] picks[j] < near.len()
            && exists|c: int|
            0 <= c < count && !#[trigger] prune::occluded(
                pairs,
                near,
                picks.take(j),
                picks[j],
                levels[c],
            ) by {
            let c = choose|c: int|
                0 <= c < count - 1 && !#[trigger] prune::occluded(
                    pairs,
                    near,
                    picks.take(j),
                    picks[j],
                    levels[c],
                );
            assert(!prune::occluded(pairs, near, picks.take(j), picks[j], levels[c]));
        }
        assert(now.take(picks.len() as int) =~= picks);
    } else {
        lemma_pass(pairs, near, max_degree, levels, count, picks, upto - 1);
        let before = prune::pass(pairs, near, max_degree, level, picks, upto - 1);
        let i0 = upto - 1;
        if now != before {
            assert(now == before.push(i0));
            assert forall|j: int| 0 <= j < now.len() implies 0 <= #[trigger] now[j] < near.len()
                && exists|c: int|
                0 <= c < count && !#[trigger] prune::occluded(
                    pairs,
                    near,
                    now.take(j),
                    now[j],
                    levels[c],
                ) by {
                assert(now.take(j) =~= before.take(j));
                if j < before.len() {
                    assert(now[j] == before[j]);
                    let c = choose|c: int|
                        0 <= c < count && !#[trigger] prune::occluded(
                            pairs,
                            near,
                            before.take(j),
                            before[j],
                            levels[c],
                        );
                    assert(!prune::occluded(pairs, near, now.take(j), now[j], levels[c]));
                } else {
                    assert(before.take(j) =~= before);
                    assert(!prune::occluded(pairs, near, now.take(j), now[j], levels[count - 1]));
                }
            }
            assert(now.no_duplicates()) by {
                assert forall|a: int, b: int|
                    0 <= a < now.len() && 0 <= b < now.len() && a != b implies now[a] != now[b] by {
                    if a == before.len() {
                        assert(before.contains(before[b]));
                    }
                    if b == before.len() {
                        assert(before.contains(before[a]));
                    }
                }
            }
            assert(now.take(picks.len() as int) =~= before.take(picks.len() as int));
        }
        if now.len() < max_degree {
            assert forall|i: int| 0 <= i < upto && !now.contains(i) implies #[trigger] prune::occluded(
                pairs,
                near,
                now,
                i,
                level,
            ) by {
                if now != before {
                    assert(now[before.len() as int] == i0);
                    assert(i != i0);
                    if before.contains(i) {
                        let m = choose|m: int| 0 <= m < before.len() && before[m] == i;
                        assert(now[m] == i);
                    }
                    assert(now.take(before.len() as int) =~= before);
                    lemma_more_occludes(pairs, near, before, now, i, level);
                }
            }
        }
        if picks.len() == 0 && max_degree > 0 && !word::less(level, word::ZERO) && upto == 1 {
            assert(before == picks);
            assert(!before.contains(0));
        }
    }
}

proof fn lemma_more_occludes<P: Pairs>(
    pairs: &P,
    near: Seq<Candidate>,
    before: Seq<int>,
    now: Seq<int>,
    i: int,
    level: u32,
)
    requires
        before.len() <= now.len(),
        now.take(before.len() as int) == before,
        prune::occluded(pairs, near, before, i, level),
    ensures
        prune::occluded(pairs, near, now, i, level),
{
    if !word::less(level, word::ZERO) {
        let j = choose|j: int|
            0 <= j < before.len() && (#[trigger] before[j]) < i && word::less(
                level,
                prune::ratio(pairs, near, i, before[j]),
            );
        assert(now.take(before.len() as int)[j] == now[j]);
        assert(now[j] == before[j]);
    }
}

/// The picks after `count` passes, where `all` are the picks in the end.
proof fn lemma_passes<P: Pairs>(
    pairs: &P,
    near: Seq<Candidate>,
    max_degree: int,
    levels: Seq<u32>,
    count: int,
)
    requires
        0 <= count <= levels.len(),
        0 <= max_degree,
    ensures
        ({
            let now = prune::passes(pairs, near, max_degree, levels, count);
            &&& are_admitted(pairs, near, max_degree, levels, count, now)
            &&& count > 0 && near.len() > 0 && max_degree > 0 && !word::less(
                levels[0],
                word::ZERO,
            ) ==> now.len() > 0 && now[0] == 0
        }),
    decreases count,
{
    if count > 0 {
        lemma_passes(pairs, near, max_degree, levels, count - 1);
        let before = prune::passes(pairs, near, max_degree, levels, count - 1);
        lemma_pass(pairs, near, max_degree, levels, count, before, near.len() as int);
        let now = prune::passes(pairs, near, max_degree, levels, count);
        if count > 1 {
            assert(now.take(before.len() as int)[0] == now[0] || before.len() == 0);
        }
    }
}

proof fn lemma_passes_extend<P: Pairs>(
    pairs: &P,
    near: Seq<Candidate>,
    max_degree: int,
    levels: Seq<u32>,
    a: int,
    b: int,
)
    requires
        0 <= a <= b <= levels.len(),
        0 <= max_degree,
    ensures
        ({
            let was = prune::passes(pairs, near, max_degree, levels, a);
            let now = prune::passes(pairs, near, max_degree, levels, b);
            was.len() <= now.len() && now.take(was.len() as int) == was
        }),
    decreases b - a,
{
    let was = prune::passes(pairs, near, max_degree, levels, a);
    if a < b {
        lemma_passes_extend(pairs, near, max_degree, levels, a, b - 1);
        lemma_passes(pairs, near, max_degree, levels, b - 1);
        let mid = prune::passes(pairs, near, max_degree, levels, b - 1);
        lemma_pass(pairs, near, max_degree, levels, b, mid, near.len() as int);
        let now = prune::passes(pairs, near, max_degree, levels, b);
        assert(now.take(was.len() as int) =~= now.take(mid.len() as int).take(was.len() as int));
    } else {
        assert(was.take(was.len() as int) =~= was);
    }
}

proof fn lemma_filled(max_degree: int, picks: Seq<int>, upto: int, n: int)
    requires
        0 <= upto <= n,
        picks.len() <= max_degree,
        picks.no_duplicates(),
        forall|j: int| 0 <= j < picks.len() ==> 0 <= #[trigger] picks[j] < n,
    ensures
        ({
            let now = prune::filled(max_degree, picks, upto);
            &&& picks.len() <= now.len() <= max_degree
            &&& now.take(picks.len() as int) == picks
            &&& now.no_duplicates()
            &&& forall|j: int| 0 <= j < now.len() ==> 0 <= #[trigger] now[j] < n
            &&& now.len() == max_degree || forall|i: int|
                0 <= i < upto ==> #[trigger] now.contains(i)
            &&& forall|j: int| picks.len() <= j < now.len() ==> #[trigger] now[j] < upto
            &&& forall|j: int, i: int|
                picks.len() <= j < now.len() && 0 <= i < now[j] ==> #[trigger] now.take(
                    j,
                ).contains(i)
        }),
    decreases upto,
{
    let now = prune::filled(max_degree, picks, upto);
    if upto <= 0 {
        assert(now.take(picks.len() as int) =~= picks);
    } else {
        lemma_filled(max_degree, picks, upto - 1, n);
        let before = prune::filled(max_degree, picks, upto - 1);
        if now != before {
            assert(now == before.push(upto - 1));
            assert(now.take(picks.len() as int) =~= before.take(picks.len() as int));
            assert(now.no_duplicates()) by {
                assert forall|a: int, b: int|
                    0 <= a < now.len() && 0 <= b < now.len() && a != b implies now[a] != now[b] by {
                    if a == before.len() {
                        assert(before.contains(before[b]));
                    }
                    if b == before.len() {
                        assert(before.contains(before[a]));
                    }
                }
            }
            assert forall|i: int| 0 <= i < upto implies #[trigger] now.contains(i) by {
                if i < upto - 1 {
                    assert(before.contains(i));
                    let m = choose|m: int| 0 <= m < before.len() && before[m] == i;
                    assert(now[m] == i);
                } else {
                    assert(now[before.len() as int] == i);
                }
            }
            assert forall|j: int, i: int|
                picks.len() <= j < now.len() && 0 <= i < now[j] implies #[trigger] now.take(
                j,
            ).contains(i) by {
                assert(now.take(j) =~= before.take(j));
                if j == before.len() {
                    assert(before.take(j) =~= before);
                    assert(before.contains(i));
                } else {
                    assert(now[j] == before[j]);
                    assert(before.take(j).contains(i));
                }
            }
        } else {
            assert forall|j: int, i: int|
                picks.len() <= j < now.len() && 0 <= i < now[j] implies #[trigger] now.take(
                j,
            ).contains(i) by {
                assert(before[j] == now[j]);
                assert(before.take(j).contains(i));
            }
            if now.len() < max_degree {
                assert forall|i: int| 0 <= i < upto implies #[trigger] now.contains(i) by {
                    assert(i < upto - 1 ==> before.contains(i));
                }
            }
        }
    }
}

proof fn lemma_dedup_ranked(s: Seq<Candidate>)
    requires
        candidate::ranked(s),
    ensures
        candidate::ranked(prune::dedup(s)),
    decreases s.len(),
{
    if s.len() > 1 {
        let rest = s.drop_last();
        assert(candidate::ranked(rest)) by {
            assert forall|i: int, j: int| 0 <= i < j < rest.len() implies word::rank(
                (#[trigger] rest[i]).dist,
            ) <= word::rank((#[trigger] rest[j]).dist) by {
                assert(word::rank(s[i].dist) <= word::rank(s[j].dist));
            }
        }
        lemma_dedup_ranked(rest);
        prune::lemma_dedup(rest);
        let d = prune::dedup(rest);
        let now = prune::dedup(s);
        if now != d {
            assert forall|i: int, j: int| 0 <= i < j < now.len() implies word::rank(
                (#[trigger] now[i]).dist,
            ) <= word::rank((#[trigger] now[j]).dist) by {
                if j < d.len() {
                    assert(now[i] == d[i] && now[j] == d[j]);
                } else {
                    assert(now[i] == d[i]);
                    assert(rest.contains(d[i]));
                    let m = choose|m: int| 0 <= m < rest.len() && rest[m] == d[i];
                    assert(word::rank(s[m].dist) <= word::rank(s[s.len() - 1].dist));
                }
            }
        }
    }
}

/// The rows that pruning gives: of the candidates other than the node, nearest first, the
/// nearest is taken in any case. One that nothing picked hides at a threshold up to
/// `alpha` goes before all that are hidden there, and what is hidden at all of them only
/// fills what room is left.
#[verifier::rlimit(40)]
pub proof fn rows_are_diverse<P: Pairs>(
    pairs: &P,
    node: u32,
    cands: Seq<Candidate>,
    max_degree: int,
    alpha: u32,
    r: Seq<u32>,
)
    requires
        0 <= max_degree,
        prune::pruned(pairs, node, cands, max_degree, alpha, r),
    ensures
        exists|near: Seq<Candidate>, picks: Seq<int>|
            #![trigger is_row_of(near, max_degree, picks, r)]
            lists_others(node, cands, near) && is_row_of(near, max_degree, picks, r)
                && takes_unhidden_first(pairs, alpha, near, picks) && fills_nearest_first(
                pairs,
                alpha,
                near,
                picks,
            ),
{
    let sorted = choose|sorted: Seq<Candidate>| #[trigger]
        candidate::same_items(sorted, prune::others(node, cands)) && candidate::ranked(sorted) && r
            == prune::ids_at(
            prune::dedup(sorted),
            prune::chosen(pairs, prune::dedup(sorted), max_degree, alpha),
        );
    let near = prune::dedup(sorted);
    let others = prune::others(node, cands);
    prune::lemma_others(node, cands);
    candidate::lemma_same_items(sorted, others);
    candidate::lemma_same_items(others, sorted);
    prune::lemma_dedup(sorted);
    lemma_dedup_ranked(sorted);
    assert(lists_others(node, cands, near)) by {
        assert forall|i: int| 0 <= i < near.len() implies cands.contains(#[trigger] near[i])
            && near[i].id != node by {
            assert(sorted.contains(near[i]));
            assert(others.contains(near[i]));
        }
        assert forall|i: int|
            0 <= i < cands.len() && (#[trigger] cands[i]).id != node implies candidate::holds_id(
            near,
            cands[i].id,
        ) by {
            assert(cands.contains(cands[i]));
            assert(others.contains(cands[i]));
            assert(sorted.contains(cands[i]));
            let m = choose|m: int| 0 <= m < sorted.len() && sorted[m] == cands[i];
            assert(candidate::holds_id(near, sorted[m].id));
        }
    }
    let levels = prune::levels(pairs, alpha);
    let count = levels.len() as int;
    let part = prune::passes(pairs, near, max_degree, levels, count);
    let picks = prune::filled(max_degree, part, near.len() as int);
    lemma_passes(pairs, near, max_degree, levels, count);
    lemma_filled(max_degree, part, near.len() as int, near.len() as int);
    lemma_levels(pairs, alpha, 0);
    assert(is_used(pairs, alpha, 0)) by {
        assert(threshold(pairs, 0) == 0x3f80_0000);
    }
    assert(is_row_of(near, max_degree, picks, r)) by {
        assert(r == prune::ids_at(near, picks));
        if near.len() > 0 && max_degree > 0 {
            assert(part.len() > 0 && part[0] == 0);
            assert(picks.take(part.len() as int)[0] == picks[0]);
        }
        lemma_pick_count(picks, near.len() as int, max_degree);
    }
    assert forall|t: nat, i: int, j: int|
        is_used(pairs, alpha, t) && !word::less(threshold(pairs, t), word::ZERO) && 0 <= i
            < near.len() && 0 <= j < picks.len() implies #[trigger] yields_to(
        pairs,
        near,
        picks,
        t,
        i,
        j,
    ) by {
        if !picks.contains(i) && !is_hidden(pairs, near, picks, picks.len() as int, i, t) {
            lemma_unhidden(pairs, near, max_degree, alpha, picks, t, i, j);
        }
    }
    assert forall|i: int, j: int|
        0 <= j < picks.len() && is_filler(pairs, alpha, near, picks, j) && 0 <= i
            < picks[j] implies #[trigger] picks.take(j).contains(i) by {
        if j < part.len() {
            assert(picks.take(part.len() as int)[j] == picks[j]);
            assert(part[j] == picks[j]);
            let c = choose|c: int|
                0 <= c < count && !#[trigger] prune::occluded(
                    pairs,
                    near,
                    part.take(j),
                    part[j],
                    levels[c],
                );
            lemma_levels(pairs, alpha, c as nat);
            assert(part.take(j) =~= picks.take(j));
            lemma_hidden(pairs, near, picks, j, picks[j], c as nat);
            assert(is_hidden(pairs, near, picks, j, picks[j], c as nat));
        } else {
            assert(picks[j] < near.len());
        }
    }
    assert(takes_unhidden_first(pairs, alpha, near, picks));
    assert(fills_nearest_first(pairs, alpha, near, picks));
    assert(lists_others(node, cands, near) && is_row_of(near, max_degree, picks, r));
}

proof fn lemma_pick_count(picks: Seq<int>, n: int, max_degree: int)
    requires
        0 <= n,
        0 <= max_degree,
        picks.len() <= max_degree,
        picks.no_duplicates(),
        forall|j: int| 0 <= j < picks.len() ==> 0 <= #[trigger] picks[j] < n,
        picks.len() == max_degree || forall|i: int| 0 <= i < n ==> #[trigger] picks.contains(i),
    ensures
        picks.len() == if n <= max_degree {
            n
        } else {
            max_degree
        },
{
    let all = vstd::set_lib::set_int_range(0, n);
    vstd::set_lib::lemma_int_range(0, n);
    picks.unique_seq_to_set();
    assert(picks.to_set().subset_of(all)) by {
        assert forall|x: int| picks.to_set().contains(x) implies all.contains(x) by {
            let j = choose|j: int| 0 <= j < picks.len() && picks[j] == x;
        }
    }
    vstd::set_lib::lemma_len_subset(picks.to_set(), all);
    if picks.len() < max_degree {
        assert(all.subset_of(picks.to_set())) by {
            assert forall|x: int| all.contains(x) implies picks.to_set().contains(x) by {
                assert(picks.contains(x));
            }
        }
        vstd::set_lib::lemma_len_subset(all, picks.to_set());
    }
}

proof fn lemma_unhidden<P: Pairs>(
    pairs: &P,
    near: Seq<Candidate>,
    max_degree: int,
    alpha: u32,
    picks: Seq<int>,
    t: nat,
    i: int,
    j: int,
)
    requires
        0 <= max_degree,
        picks == prune::chosen(pairs, near, max_degree, alpha),
        is_used(pairs, alpha, t),
        !word::less(threshold(pairs, t), word::ZERO),
        0 <= i < near.len(),
        !picks.contains(i),
        !is_hidden(pairs, near, picks, picks.len() as int, i, t),
        0 <= j < picks.len(),
    ensures
        exists|s: nat| s <= t && !#[trigger] is_hidden(pairs, near, picks, j, picks[j], s),
{
    let levels = prune::levels(pairs, alpha);
    let count = levels.len() as int;
    let n = near.len() as int;
    lemma_levels(pairs, alpha, t);
    let part = prune::passes(pairs, near, max_degree, levels, count);
    lemma_passes(pairs, near, max_degree, levels, count);
    lemma_filled(max_degree, part, n, n);
    let before = prune::passes(pairs, near, max_degree, levels, t as int);
    let here = prune::passes(pairs, near, max_degree, levels, t as int + 1);
    lemma_passes(pairs, near, max_degree, levels, t as int);
    lemma_pass(pairs, near, max_degree, levels, t as int + 1, before, n);
    lemma_passes_extend(pairs, near, max_degree, levels, t as int + 1, count);
    assert(picks.take(here.len() as int) =~= picks.take(part.len() as int).take(here.len() as int));
    assert(picks.take(here.len() as int) == here);
    if here.len() < max_degree {
        if here.contains(i) {
            let m = choose|m: int| 0 <= m < here.len() && here[m] == i;
            assert(picks.take(here.len() as int)[m] == picks[m]);
        }
        assert(prune::occluded(pairs, near, here, i, levels[t as int]));
        lemma_more_occludes(pairs, near, here, picks, i, levels[t as int]);
        lemma_hidden(pairs, near, picks, picks.len() as int, i, t);
        assert(picks.take(picks.len() as int) =~= picks);
    }
    assert(j < here.len());
    lemma_passes(pairs, near, max_degree, levels, t as int + 1);
    assert(picks.take(here.len() as int)[j] == picks[j]);
    assert(here[j] == picks[j]);
    let c = choose|c: int|
        0 <= c < t + 1 && !#[trigger] prune::occluded(
            pairs,
            near,
            here.take(j),
            here[j],
            levels[c],
        );
    lemma_levels(pairs, alpha, c as nat);
    assert(here.take(j) =~= picks.take(j));
    lemma_hidden(pairs, near, picks, j, picks[j], c as nat);
    assert(!is_hidden(pairs, near, picks, j, picks[j], c as nat));
}

} // verus!
