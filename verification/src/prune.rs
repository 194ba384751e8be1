//! Choosing the neighbours of a node.
use crate::candidate;
use crate::candidate::Candidate;
use crate::candidate::sort;
use crate::word;
use vstd::prelude::*;

verus! {

/// Each occlusion threshold is this times the one before: 1.2.
pub const LEVEL_STEP: u32 = 0x3f99_999a;

/// Thresholds after which the schedule ends. Starting from 1.0, repeated products with
/// 1.2 pass every finite number long before.
pub const MAX_LEVELS: usize = 1024;

/// Distances between the nodes of a graph, and the arithmetic on them.
pub trait Pairs {
    /// Whether the id names a node.
    spec fn has(&self, id: u32) -> bool;

    /// The distance between two nodes.
    spec fn pair(&self, a: u32, b: u32) -> u32;

    spec fn quotient_of(&self, a: u32, b: u32) -> u32;

    spec fn product_of(&self, a: u32, b: u32) -> u32;

    fn between(&self, a: u32, b: u32) -> (d: u32)
        requires
            self.has(a),
            self.has(b),
        ensures
            d == self.pair(a, b),
    ;

    fn divide(&self, a: u32, b: u32) -> (r: u32)
        ensures
            r == self.quotient_of(a, b),
    ;

    fn multiply(&self, a: u32, b: u32) -> (r: u32)
        ensures
            r == self.product_of(a, b),
    ;
}

/// The thresholds from `cur` up to `alpha`.
pub open spec fn levels_from<P: Pairs>(pairs: &P, cur: u32, alpha: u32, most: nat) -> Seq<u32>
    decreases most,
{
    if most == 0 || !word::at_most(cur, alpha) {
        Seq::empty()
    } else {
        seq![cur] + levels_from(
            pairs,
            pairs.product_of(cur, LEVEL_STEP),
            alpha,
            (most - 1) as nat,
        )
    }
}

/// The thresholds of a pruning with parameter `alpha`, which counts as 1 when smaller.
pub open spec fn levels<P: Pairs>(pairs: &P, alpha: u32) -> Seq<u32> {
    levels_from(pairs, word::ONE, word::max_of(alpha, word::ONE), MAX_LEVELS as nat)
}

/// How strongly candidate `s` occludes candidate `i`: the distance of `i` from the node
/// over the distance between the two, without bound where they coincide.
pub open spec fn ratio<P: Pairs>(pairs: &P, cands: Seq<Candidate>, i: int, s: int) -> u32 {
    let apart = pairs.pair(cands[i].id, cands[s].id);
    if word::order(apart) == 0 {
        word::INFINITY
    } else {
        pairs.quotient_of(cands[i].dist, apart)
    }
}

/// Whether a nearer candidate that was picked occludes candidate `i` beyond `level`.
/// A negative level is passed without any.
pub open spec fn occluded<P: Pairs>(
    pairs: &P,
    cands: Seq<Candidate>,
    picks: Seq<int>,
    i: int,
    level: u32,
) -> bool {
    word::less(level, word::ZERO) || exists|j: int|
        0 <= j < picks.len() && (#[trigger] picks[j]) < i && word::less(
            level,
            ratio(pairs, cands, i, picks[j]),
        )
}

/// The picks after the first `upto` candidates were considered at one threshold.
pub open spec fn pass<P: Pairs>(
    pairs: &P,
    cands: Seq<Candidate>,
    max_degree: int,
    level: u32,
    picks: Seq<int>,
    upto: int,
) -> Seq<int>
    decreases upto,
{
    if upto <= 0 {
        picks
    } else {
        let before = pass(pairs, cands, max_degree, level, picks, upto - 1);
        let i = upto - 1;
        if before.len() < max_degree && !before.contains(i) && !occluded(
            pairs,
            cands,
            before,
            i,
            level,
        ) {
            before.push(i)
        } else {
            before
        }
    }
}

/// The picks after a pass at each of the first `count` thresholds.
pub open spec fn passes<P: Pairs>(
    pairs: &P,
    cands: Seq<Candidate>,
    max_degree: int,
    thresholds: Seq<u32>,
    count: int,
) -> Seq<int>
    decreases count,
{
    if count <= 0 {
        Seq::empty()
    } else {
        pass(
            pairs,
            cands,
            max_degree,
            thresholds[count - 1],
            passes(pairs, cands, max_degree, thresholds, count - 1),
            cands.len() as int,
        )
    }
}

/// The picks after the first `upto` candidates filled what room is left.
pub open spec fn filled(max_degree: int, picks: Seq<int>, upto: int) -> Seq<int>
    decreases upto,
{
    if upto <= 0 {
        picks
    } else {
        let before = filled(max_degree, picks, upto - 1);
        if before.len() < max_degree && !before.contains(upto - 1) {
            before.push(upto - 1)
        } else {
            before
        }
    }
}

/// Which of the candidates, given nearest first, become neighbours, in turn: passes at
/// rising thresholds, each taking the candidates that nothing nearer among the picks
/// occludes, and then the nearest of the rest.
pub open spec fn chosen<P: Pairs>(
    pairs: &P,
    cands: Seq<Candidate>,
    max_degree: int,
    alpha: u32,
) -> Seq<int> {
    let thresholds = levels(pairs, alpha);
    filled(
        max_degree,
        passes(pairs, cands, max_degree, thresholds, thresholds.len() as int),
        cands.len() as int,
    )
}

/// Runs of one id reduced to their first candidate.
pub open spec fn dedup(s: Seq<Candidate>) -> Seq<Candidate>
    decreases s.len(),
{
    if s.len() <= 1 {
        s
    } else {
        let d = dedup(s.drop_last());
        if s.last().id == s[s.len() - 2].id {
            d
        } else {
            d.push(s.last())
        }
    }
}

/// Not the node itself.
pub open spec fn is_other(node: u32) -> spec_fn(Candidate) -> bool {
    |c: Candidate| c.id != node
}

/// The candidates other than the node itself.
pub open spec fn others(node: u32, s: Seq<Candidate>) -> Seq<Candidate> {
    s.filter(is_other(node))
}

/// The ids of the picked candidates.
pub open spec fn ids_at(cands: Seq<Candidate>, picks: Seq<int>) -> Seq<u32> {
    picks.map_values(|i: int| cands[i].id)
}

/// What `robust_prune` returns.
pub open spec fn pruned<P: Pairs>(
    pairs: &P,
    node: u32,
    cands: Seq<Candidate>,
    max_degree: int,
    alpha: u32,
    r: Seq<u32>,
) -> bool {
    exists|sorted: Seq<Candidate>| #[trigger]
        candidate::same_items(sorted, others(node, cands)) && candidate::ranked(sorted) && r
            == ids_at(dedup(sorted), chosen(pairs, dedup(sorted), max_degree, alpha))
}

fn level_list<P: Pairs>(pairs: &P, alpha: u32) -> (r: Vec<u32>)
    ensures
        r@ == levels_from(pairs, word::ONE, alpha, MAX_LEVELS as nat),
        forall|i: int|
            0 <= i < r@.len() ==> word::at_most(#[trigger] r@[i], alpha),
{
    let mut r: Vec<u32> = Vec::new();
    let mut cur: u32 = word::ONE;
    let ghost whole = levels_from(pairs, word::ONE, alpha, MAX_LEVELS as nat);
    assert(whole =~= r@ + whole);
    while r.len() < MAX_LEVELS && word::le(cur, alpha)
        invariant
            r@.len() <= MAX_LEVELS,
            whole == r@ + levels_from(pairs, cur, alpha, (MAX_LEVELS - r@.len()) as nat),
            forall|i: int| 0 <= i < r@.len() ==> word::at_most(#[trigger] r@[i], alpha),
        decreases MAX_LEVELS - r@.len(),
    {
        let ghost before = r@;
        let ghost old_cur = cur;
        r.push(cur);
        cur = pairs.multiply(cur, LEVEL_STEP);
        proof {
            let rest = levels_from(pairs, cur, alpha, (MAX_LEVELS - r@.len()) as nat);
            assert(levels_from(pairs, old_cur, alpha, (MAX_LEVELS - before.len()) as nat)
                == seq![old_cur] + rest);
            assert(before + (seq![old_cur] + rest) =~= r@ + rest);
        }
    }
    assert(r@ + Seq::<u32>::empty() =~= r@);
    r
}

fn dedup_ids(s: &Vec<Candidate>) -> (r: Vec<Candidate>)
    ensures
        r@ == dedup(s@),
{
    let mut r: Vec<Candidate> = Vec::new();
    let mut i: usize = 0;
    assert(s@.take(0) =~= Seq::empty());
    while i < s.len()
        invariant
            i <= s@.len(),
            r@ == dedup(s@.take(i as int)),
        decreases s@.len() - i,
    {
        assert(s@.take(i + 1).drop_last() =~= s@.take(i as int));
        assert(i > 0 ==> s@.take(i + 1)[i - 1] == s@[i - 1]);
        if i == 0 || s[i].id != s[i - 1].id {
            r.push(s[i]);
        }
        i = i + 1;
    }
    assert(s@.take(s@.len() as int) =~= s@);
    r
}

fn other_candidates(node: u32, s: &Vec<Candidate>) -> (r: Vec<Candidate>)
    ensures
        r@ == others(node, s@),
{
    let mut r: Vec<Candidate> = Vec::new();
    let mut i: usize = 0;
    proof {
        reveal(Seq::filter);
    }
    assert(s@.take(0) =~= Seq::empty());
    while i < s.len()
        invariant
            i <= s@.len(),
            r@ == others(node, s@.take(i as int)),
        decreases s@.len() - i,
    {
        proof {
            reveal(Seq::filter);
        }
        assert(s@.take(i + 1).drop_last() =~= s@.take(i as int));
        if s[i].id != node {
            r.push(s[i]);
        }
        i = i + 1;
    }
    assert(s@.take(s@.len() as int) =~= s@);
    r
}

/// The candidate's recorded occlusion passes exactly the thresholds that some pick's does.
spec fn records<P: Pairs>(
    pairs: &P,
    cands: Seq<Candidate>,
    picks: Seq<int>,
    alpha: u32,
    occlude: u32,
    i: int,
) -> bool {
    &&& !word::is_nan(occlude)
    &&& forall|level: u32|
        word::at_most(level, alpha) ==> (#[trigger] word::less(
            level,
            occlude,
        ) <==> occluded(pairs, cands, picks, i, level))
}

proof fn lemma_occluded_push<P: Pairs>(
    pairs: &P,
    cands: Seq<Candidate>,
    picks: Seq<int>,
    s: int,
    i: int,
    level: u32,
)
    ensures
        occluded(pairs, cands, picks.push(s), i, level) <==> occluded(pairs, cands, picks, i, level)
            || (s < i && word::less(level, ratio(pairs, cands, i, s))),
{
    let more = picks.push(s);
    if occluded(pairs, cands, picks, i, level) && !word::less(level, word::ZERO) {
        let j = choose|j: int|
            0 <= j < picks.len() && (#[trigger] picks[j]) < i && word::less(
                level,
                ratio(pairs, cands, i, picks[j]),
            );
        assert(more[j] == picks[j]);
    }
    if s < i && word::less(level, ratio(pairs, cands, i, s)) {
        assert(more[picks.len() as int] == s);
    }
    if occluded(pairs, cands, more, i, level) && !word::less(level, word::ZERO) {
        let j = choose|j: int|
            0 <= j < more.len() && (#[trigger] more[j]) < i && word::less(
                level,
                ratio(pairs, cands, i, more[j]),
            );
        if j < picks.len() {
            assert(picks[j] == more[j]);
        }
    }
}

proof fn lemma_records_push<P: Pairs>(
    pairs: &P,
    cands: Seq<Candidate>,
    picks: Seq<int>,
    alpha: u32,
    before: u32,
    after: u32,
    s: int,
    i: int,
)
    requires
        records(pairs, cands, picks, alpha, before, i),
        s < i ==> (word::less(alpha, before) && after == before) || (ratio(pairs, cands, i, s)
            == word::INFINITY && after == word::INFINITY) || after == word::max_of(
            before,
            ratio(pairs, cands, i, s),
        ),
        s >= i ==> after == before,
    ensures
        records(pairs, cands, picks.push(s), alpha, after, i),
{
    assert forall|level: u32|
        word::at_most(level, alpha) implies (
    #[trigger] word::less(level, after) <==> occluded(pairs, cands, picks.push(s), i, level)) by {
        lemma_occluded_push(pairs, cands, picks, s, i, level);
        assert(word::less(level, before) <==> occluded(pairs, cands, picks, i, level));
    }
}

/// Once the picks are full nothing more is picked.
proof fn lemma_full_pass<P: Pairs>(
    pairs: &P,
    cands: Seq<Candidate>,
    max_degree: int,
    level: u32,
    picks: Seq<int>,
    from: int,
    upto: int,
)
    requires
        0 <= from <= upto,
        pass(pairs, cands, max_degree, level, picks, from).len() >= max_degree,
    ensures
        pass(pairs, cands, max_degree, level, picks, upto) == pass(
            pairs,
            cands,
            max_degree,
            level,
            picks,
            from,
        ),
    decreases upto - from,
{
    if from < upto {
        lemma_full_pass(pairs, cands, max_degree, level, picks, from, upto - 1);
    }
}

proof fn lemma_full_passes<P: Pairs>(
    pairs: &P,
    cands: Seq<Candidate>,
    max_degree: int,
    thresholds: Seq<u32>,
    from: int,
    upto: int,
)
    requires
        0 <= from <= upto,
        passes(pairs, cands, max_degree, thresholds, from).len() >= max_degree,
    ensures
        passes(pairs, cands, max_degree, thresholds, upto) == passes(
            pairs,
            cands,
            max_degree,
            thresholds,
            from,
        ),
    decreases upto - from,
{
    if from < upto {
        lemma_full_passes(pairs, cands, max_degree, thresholds, from, upto - 1);
        lemma_full_pass(
            pairs,
            cands,
            max_degree,
            thresholds[upto - 1],
            passes(pairs, cands, max_degree, thresholds, upto - 1),
            0,
            cands.len() as int,
        );
    }
}

proof fn lemma_full_fill(max_degree: int, picks: Seq<int>, from: int, upto: int)
    requires
        0 <= from <= upto,
        filled(max_degree, picks, from).len() >= max_degree,
    ensures
        filled(max_degree, picks, upto) == filled(max_degree, picks, from),
    decreases upto - from,
{
    if from < upto {
        lemma_full_fill(max_degree, picks, from, upto - 1);
    }
}

/// The picks so far, with what was recorded of them.
spec fn picking(
    selected: Seq<bool>,
    picks: Seq<int>,
    out: Seq<u32>,
    cands: Seq<Candidate>,
    max_degree: int,
) -> bool {
    &&& selected.len() == cands.len()
    &&& forall|i: int| 0 <= i < selected.len() ==> (#[trigger] selected[i] <==> picks.contains(i))
    &&& forall|j: int| 0 <= j < picks.len() ==> 0 <= #[trigger] picks[j] < cands.len()
    &&& out == ids_at(cands, picks)
    &&& picks.len() <= max_degree
}

proof fn lemma_contains_push(picks: Seq<int>, s: int)
    ensures
        forall|i: int| #[trigger] picks.push(s).contains(i) <==> picks.contains(i) || i == s,
{
    let more = picks.push(s);
    assert forall|i: int| #[trigger] more.contains(i) <==> picks.contains(i) || i == s by {
        if picks.contains(i) {
            let j = choose|j: int| 0 <= j < picks.len() && picks[j] == i;
            assert(more[j] == i);
        }
        assert(more[picks.len() as int] == s);
    }
}

#[verifier::rlimit(40)]
fn pick_pass<P: Pairs>(
    pairs: &P,
    cands: &Vec<Candidate>,
    max_degree: usize,
    level: u32,
    alpha: u32,
    occlude: &mut Vec<u32>,
    selected: &mut Vec<bool>,
    out: &mut Vec<u32>,
    Ghost(start): Ghost<Seq<int>>,
)
    requires
        forall|i: int| 0 <= i < cands@.len() ==> pairs.has((#[trigger] cands@[i]).id),
        word::at_most(level, alpha),
        old(occlude)@.len() == cands@.len(),
        picking(old(selected)@, start, old(out)@, cands@, max_degree as int),
        forall|i: int|
            0 <= i < cands@.len() && !start.contains(i) ==> #[trigger] records(
                pairs,
                cands@,
                start,
                alpha,
                old(occlude)@[i],
                i,
            ),
    ensures
        final(occlude)@.len() == cands@.len(),
        ({
            let picks = pass(
                pairs,
                cands@,
                max_degree as int,
                level,
                start,
                cands@.len() as int,
            );
            &&& picking(final(selected)@, picks, final(out)@, cands@, max_degree as int)
            &&& forall|i: int|
                0 <= i < cands@.len() && !picks.contains(i) ==> #[trigger] records(
                    pairs,
                    cands@,
                    picks,
                    alpha,
                    final(occlude)@[i],
                    i,
                )
        }),
{
    let n: usize = cands.len();
    let mut i: usize = 0;
    let ghost mut picks = start;
    while i < n && out.len() < max_degree
        invariant
            n == cands@.len(),
            i <= n,
            forall|i: int| 0 <= i < cands@.len() ==> pairs.has((#[trigger] cands@[i]).id),
                word::at_most(level, alpha),
            occlude@.len() == n,
            picks == pass(pairs, cands@, max_degree as int, level, start, i as int),
            picking(selected@, picks, out@, cands@, max_degree as int),
            forall|i: int|
                0 <= i < n && !picks.contains(i) ==> #[trigger] records(
                    pairs,
                    cands@,
                    picks,
                    alpha,
                    occlude@[i],
                    i,
                ),
        decreases n - i,
    {
        let ghost before = picks;
        proof {
            if !before.contains(i as int) {
                assert(records(pairs, cands@, before, alpha, occlude@[i as int], i as int));
            }
        }
        if !selected[i] && !word::lt(level, occlude[i]) {
            proof {
                picks = before.push(i as int);
                lemma_contains_push(before, i as int);
                assert(out@.push(cands@[i as int].id) =~= ids_at(cands@, picks));
            }
            selected.set(i, true);
            out.push(cands[i].id);
            let ghost marks = occlude@;
            proof {
                assert forall|m: int| 0 <= m < i + 1 && !picks.contains(m) implies #[trigger] records(
                    pairs,
                    cands@,
                    picks,
                    alpha,
                    occlude@[m],
                    m,
                ) by {
                    assert(records(pairs, cands@, before, alpha, marks[m], m));
                    lemma_records_push(
                        pairs,
                        cands@,
                        before,
                        alpha,
                        marks[m],
                        marks[m],
                        i as int,
                        m,
                    );
                }
            }
            let mut j: usize = i + 1;
            while j < n
                invariant
                    n == cands@.len(),
                    i < j <= n,
                    forall|i: int| 0 <= i < cands@.len() ==> pairs.has((#[trigger] cands@[i]).id),
                    occlude@.len() == n,
                    marks.len() == n,
                    selected@.len() == n,
                    forall|m: int|
                        0 <= m < n ==> (#[trigger] selected@[m] <==> picks.contains(m)),
                    forall|m: int| j <= m < n ==> #[trigger] occlude@[m] == marks[m],
                    picks == before.push(i as int),
                    forall|m: int|
                        0 <= m < n && !picks.contains(m) ==> #[trigger] records(
                            pairs,
                            cands@,
                            before,
                            alpha,
                            marks[m],
                            m,
                        ),
                    forall|m: int|
                        0 <= m < j && !picks.contains(m) ==> #[trigger] records(
                            pairs,
                            cands@,
                            picks,
                            alpha,
                            occlude@[m],
                            m,
                        ),
                decreases n - j,
            {
                if !selected[j] && !word::lt(alpha, occlude[j]) {
                    let apart: u32 = pairs.between(cands[j].id, cands[i].id);
                    let value: u32 = if word::order_of(apart) == 0 {
                        word::INFINITY
                    } else {
                        word::max(occlude[j], pairs.divide(cands[j].dist, apart))
                    };
                    occlude.set(j, value);
                }
                proof {
                    if !picks.contains(j as int) {
                        assert(records(pairs, cands@, before, alpha, marks[j as int], j as int));
                        lemma_records_push(
                            pairs,
                            cands@,
                            before,
                            alpha,
                            marks[j as int],
                            occlude@[j as int],
                            i as int,
                            j as int,
                        );
                    }
                }
                j = j + 1;
            }
        }
        i = i + 1;
    }
    proof {
        lemma_full_pass_or_end(
            pairs,
            cands@,
            max_degree as int,
            level,
            start,
            i as int,
        );
    }
}

proof fn lemma_full_pass_or_end<P: Pairs>(
    pairs: &P,
    cands: Seq<Candidate>,
    max_degree: int,
    level: u32,
    picks: Seq<int>,
    i: int,
)
    requires
        0 <= i <= cands.len(),
        i == cands.len() || pass(pairs, cands, max_degree, level, picks, i).len() >= max_degree,
    ensures
        pass(pairs, cands, max_degree, level, picks, cands.len() as int) == pass(
            pairs,
            cands,
            max_degree,
            level,
            picks,
            i,
        ),
{
    if i < cands.len() {
        lemma_full_pass(pairs, cands, max_degree, level, picks, i, cands.len() as int);
    }
}

/// Chooses at most `max_degree` neighbours for a node among candidates that carry their
/// distance from it.
#[verifier::rlimit(40)]
pub fn robust_prune<P: Pairs>(
    pairs: &P,
    node_id: u32,
    candidates: &Vec<Candidate>,
    max_degree: usize,
    alpha: u32,
) -> (r: Vec<u32>)
    requires
        forall|i: int|
            0 <= i < candidates@.len() ==> pairs.has((#[trigger] candidates@[i]).id),
    ensures
        pruned(pairs, node_id, candidates@, max_degree as int, alpha, r@),
{
    let kept = other_candidates(node_id, candidates);
    let sorted = sort(kept);
    let cands = dedup_ids(&sorted);
    proof {
        lemma_others(node_id, candidates@);
        assert(sorted@.to_multiset() =~= kept@.to_multiset());
        candidate::lemma_same_items(sorted@, kept@);
        lemma_dedup(sorted@);
        assert forall|i: int| 0 <= i < cands@.len() implies pairs.has((#[trigger] cands@[i]).id) by {
            assert(sorted@.contains(cands@[i]));
            assert(kept@.contains(cands@[i]));
            let j = choose|j: int| 0 <= j < kept@.len() && kept@[j] == cands@[i];
            assert(candidates@.contains(kept@[j]));
            let m = choose|m: int| 0 <= m < candidates@.len() && candidates@[m] == kept@[j];
            assert(pairs.has(candidates@[m].id));
        }
    }
    let n: usize = cands.len();
    let alpha = word::max(alpha, word::ONE);
    let thresholds = level_list(pairs, alpha);
    let mut occlude: Vec<u32> = Vec::new();
    let mut selected: Vec<bool> = Vec::new();
    let mut i: usize = 0;
    while i < n
        invariant
            i <= n,
            occlude@.len() == i,
            selected@.len() == i,
            forall|m: int| 0 <= m < i ==> #[trigger] occlude@[m] == word::ZERO,
            forall|m: int| 0 <= m < i ==> !#[trigger] selected@[m],
        decreases n - i,
    {
        occlude.push(word::ZERO);
        selected.push(false);
        i = i + 1;
    }
    let mut out: Vec<u32> = Vec::new();
    let mut level: usize = 0;
    let ghost mut picks = Seq::<int>::empty();
    assert(out@ =~= ids_at(cands@, picks));
    while level < thresholds.len() && out.len() < max_degree
        invariant
            n == cands@.len(),
            level <= thresholds@.len(),
            forall|i: int| 0 <= i < cands@.len() ==> pairs.has((#[trigger] cands@[i]).id),
            forall|i: int|
                0 <= i < thresholds@.len() ==> word::at_most(#[trigger] thresholds@[i], alpha),
            occlude@.len() == n,
            picks == passes(pairs, cands@, max_degree as int, thresholds@, level as int),
            picking(selected@, picks, out@, cands@, max_degree as int),
            forall|i: int|
                0 <= i < n && !picks.contains(i) ==> #[trigger] records(
                    pairs,
                    cands@,
                    picks,
                    alpha,
                    occlude@[i],
                    i,
                ),
        decreases thresholds@.len() - level,
    {
        pick_pass(
            pairs,
            &cands,
            max_degree,
            thresholds[level],
            alpha,
            &mut occlude,
            &mut selected,
            &mut out,
            Ghost(picks),
        );
        proof {
            picks = pass(
                pairs,
                cands@,
                max_degree as int,
                thresholds@[level as int],
                picks,
                n as int,
            );
        }
        level = level + 1;
    }
    proof {
        if level < thresholds@.len() {
            lemma_full_passes(
                pairs,
                cands@,
                max_degree as int,
                thresholds@,
                level as int,
                thresholds@.len() as int,
            );
        }
    }
    let ghost base = picks;
    let mut i: usize = 0;
    while i < n && out.len() < max_degree
        invariant
            n == cands@.len(),
            i <= n,
            picks == filled(max_degree as int, base, i as int),
            picking(selected@, picks, out@, cands@, max_degree as int),
        decreases n - i,
    {
        if !selected[i] {
            proof {
                let before = picks;
                picks = before.push(i as int);
                lemma_contains_push(before, i as int);
                assert(out@.push(cands@[i as int].id) =~= ids_at(cands@, picks));
            }
            selected.set(i, true);
            out.push(cands[i].id);
        }
        i = i + 1;
    }
    proof {
        if i < n {
            lemma_full_fill(max_degree as int, base, i as int, n as int);
        }
        assert(candidate::same_items(sorted@, others(node_id, candidates@)));
    }
    out
}

pub proof fn lemma_others(node: u32, s: Seq<Candidate>)
    ensures
        forall|c: Candidate| #[trigger]
            others(node, s).contains(c) <==> s.contains(c) && c.id != node,
        candidate::distinct(s) ==> candidate::distinct(others(node, s)),
    decreases s.len(),
{
    reveal(Seq::filter);
    if s.len() > 0 {
        let rest = s.drop_last();
        lemma_others(node, rest);
        let a = others(node, rest);
        let b = others(node, s);
        assert(b == if s.last().id != node {
            a.push(s.last())
        } else {
            a
        });
        assert forall|c: Candidate| #[trigger] b.contains(c) <==> s.contains(c) && c.id != node by {
            if s.contains(c) && c.id != node {
                let i = choose|i: int| 0 <= i < s.len() && s[i] == c;
                if i < rest.len() {
                    assert(rest[i] == c);
                    assert(a.contains(c));
                    let j = choose|j: int| 0 <= j < a.len() && a[j] == c;
                    assert(b[j] == c);
                } else {
                    assert(b[a.len() as int] == c);
                }
            }
            if b.contains(c) {
                let j = choose|j: int| 0 <= j < b.len() && b[j] == c;
                if j < a.len() {
                    assert(a[j] == c);
                    assert(a.contains(c));
                    let i = choose|i: int| 0 <= i < rest.len() && rest[i] == c;
                    assert(s[i] == c);
                } else {
                    assert(s[s.len() - 1] == c);
                }
            }
        }
        if candidate::distinct(s) {
            assert(candidate::distinct(rest));
            assert forall|j: int| 0 <= j < a.len() implies (#[trigger] a[j]).id != s.last().id by {
                assert(a.contains(a[j]));
                let i = choose|i: int| 0 <= i < rest.len() && rest[i] == a[j];
                assert(s[i].id != s[s.len() - 1].id);
            }
        }
    }
}

pub proof fn lemma_dedup(s: Seq<Candidate>)
    ensures
        dedup(s).len() <= s.len(),
        forall|i: int| 0 <= i < dedup(s).len() ==> s.contains(#[trigger] dedup(s)[i]),
        forall|i: int|
            0 <= i < s.len() ==> candidate::holds_id(dedup(s), (#[trigger] s[i]).id),
        s.len() > 0 ==> dedup(s).len() > 0 && dedup(s).last().id == s.last().id,
        candidate::distinct(s) ==> dedup(s) == s,
    decreases s.len(),
{
    if s.len() > 1 {
        let rest = s.drop_last();
        lemma_dedup(rest);
        let d = dedup(rest);
        assert(rest.last() == s[s.len() - 2]);
        assert forall|i: int| 0 <= i < dedup(s).len() implies s.contains(#[trigger] dedup(s)[i]) by {
            if i < d.len() {
                assert(dedup(s)[i] == d[i]);
                assert(rest.contains(d[i]));
                let j = choose|j: int| 0 <= j < rest.len() && rest[j] == d[i];
                assert(s[j] == d[i]);
            } else {
                assert(s[s.len() - 1] == dedup(s)[i]);
            }
        }
        assert forall|i: int| 0 <= i < s.len() implies candidate::holds_id(
            dedup(s),
            (#[trigger] s[i]).id,
        ) by {
            if i < s.len() - 1 {
                assert(rest[i] == s[i]);
                let j = choose|j: int| 0 <= j < d.len() && (#[trigger] d[j]).id == s[i].id;
                assert(dedup(s)[j] == d[j]);
            } else {
                assert(dedup(s)[dedup(s).len() - 1].id == s[i].id);
            }
        }
        if candidate::distinct(s) {
            assert(candidate::distinct(rest));
            assert(s[s.len() - 2].id != s[s.len() - 1].id);
            assert(rest.push(s.last()) =~= s);
        }
    } else if s.len() == 1 {
        assert(dedup(s)[0].id == s[0].id);
        assert(s.contains(s[0]));
    }
}

/// Picks are positions, none of them twice, and not too many.
pub open spec fn valid_picks(picks: Seq<int>, n: int, max_degree: int) -> bool {
    &&& picks.len() <= max_degree
    &&& picks.no_duplicates()
    &&& forall|j: int| 0 <= j < picks.len() ==> 0 <= #[trigger] picks[j] < n
}

proof fn lemma_pass_valid<P: Pairs>(
    pairs: &P,
    cands: Seq<Candidate>,
    max_degree: int,
    level: u32,
    picks: Seq<int>,
    upto: int,
)
    requires
        0 <= upto <= cands.len(),
        valid_picks(picks, cands.len() as int, max_degree),
    ensures
        valid_picks(
            pass(pairs, cands, max_degree, level, picks, upto),
            cands.len() as int,
            max_degree,
        ),
    decreases upto,
{
    if upto > 0 {
        lemma_pass_valid(pairs, cands, max_degree, level, picks, upto - 1);
    }
}

proof fn lemma_passes_valid<P: Pairs>(
    pairs: &P,
    cands: Seq<Candidate>,
    max_degree: int,
    thresholds: Seq<u32>,
    count: int,
)
    requires
        0 <= max_degree,
        0 <= count <= thresholds.len(),
    ensures
        valid_picks(
            passes(pairs, cands, max_degree, thresholds, count),
            cands.len() as int,
            max_degree,
        ),
    decreases count,
{
    if count > 0 {
        lemma_passes_valid(pairs, cands, max_degree, thresholds, count - 1);
        lemma_pass_valid(
            pairs,
            cands,
            max_degree,
            thresholds[count - 1],
            passes(pairs, cands, max_degree, thresholds, count - 1),
            cands.len() as int,
        );
    }
}

proof fn lemma_filled_valid(max_degree: int, picks: Seq<int>, n: int, upto: int)
    requires
        0 <= upto <= n,
        valid_picks(picks, n, max_degree),
    ensures
        valid_picks(filled(max_degree, picks, upto), n, max_degree),
        filled(max_degree, picks, upto).len() < max_degree ==> forall|i: int|
            0 <= i < upto ==> #[trigger] filled(max_degree, picks, upto).contains(i),
    decreases upto,
{
    if upto > 0 {
        lemma_filled_valid(max_degree, picks, n, upto - 1);
        let before = filled(max_degree, picks, upto - 1);
        lemma_contains_push(before, upto - 1);
    }
}

/// The picks of a pruning are valid, and there are as many as there is room and
/// candidates for.
pub proof fn chosen_is_valid<P: Pairs>(
    pairs: &P,
    cands: Seq<Candidate>,
    max_degree: int,
    alpha: u32,
)
    requires
        0 <= max_degree,
    ensures
        valid_picks(chosen(pairs, cands, max_degree, alpha), cands.len() as int, max_degree),
        chosen(pairs, cands, max_degree, alpha).len() == if cands.len() <= max_degree {
            cands.len() as int
        } else {
            max_degree
        },
{
    let thresholds = levels(pairs, alpha);
    let n = cands.len() as int;
    lemma_passes_valid(pairs, cands, max_degree, thresholds, thresholds.len() as int);
    let base = passes(pairs, cands, max_degree, thresholds, thresholds.len() as int);
    lemma_filled_valid(max_degree, base, n, n);
    let picks = filled(max_degree, base, n);
    let range = vstd::set_lib::set_int_range(0, n);
    vstd::set_lib::lemma_int_range(0, n);
    picks.unique_seq_to_set();
    assert(picks.to_set().subset_of(range));
    vstd::set_lib::lemma_len_subset(picks.to_set(), range);
    if picks.len() < max_degree {
        assert(range.subset_of(picks.to_set()));
        vstd::set_lib::lemma_len_subset(range, picks.to_set());
    }
}

/// Pruning returns ids of candidates, never the node's own, and at most `max_degree`
/// of them. Of candidates with distinct ids it returns no id twice, and as many as
/// there is room for.
pub proof fn pruning_is_sound<P: Pairs>(
    pairs: &P,
    node: u32,
    cands: Seq<Candidate>,
    max_degree: int,
    alpha: u32,
    r: Seq<u32>,
)
    requires
        0 <= max_degree,
        pruned(pairs, node, cands, max_degree, alpha, r),
    ensures
        r.len() <= max_degree,
        forall|i: int|
            0 <= i < r.len() ==> #[trigger] r[i] != node && candidate::holds_id(cands, r[i]),
        candidate::distinct(cands) ==> r.no_duplicates() && r.len() == if others(node, cands).len()
            <= max_degree {
            others(node, cands).len() as int
        } else {
            max_degree
        },
        max_degree > 0 && others(node, cands).len() > 0 ==> r.len() > 0,
{
    let kept = others(node, cands);
    let sorted = choose|sorted: Seq<Candidate>| #[trigger]
        candidate::same_items(sorted, kept) && candidate::ranked(sorted) && r == ids_at(
            dedup(sorted),
            chosen(pairs, dedup(sorted), max_degree, alpha),
        );
    let d = dedup(sorted);
    let picks = chosen(pairs, d, max_degree, alpha);
    chosen_is_valid(pairs, d, max_degree, alpha);
    lemma_others(node, cands);
    lemma_dedup(sorted);
    assert(kept.to_multiset() =~= sorted.to_multiset());
    candidate::lemma_same_items(kept, sorted);
    assert forall|i: int| 0 <= i < r.len() implies #[trigger] r[i] != node && candidate::holds_id(
        cands,
        r[i],
    ) by {
        let c = d[picks[i]];
        assert(r[i] == c.id);
        assert(sorted.contains(c));
        assert(kept.contains(c));
        assert(cands.contains(c));
        let m = choose|m: int| 0 <= m < cands.len() && cands[m] == c;
        assert(cands[m].id == r[i]);
    }
    if candidate::distinct(cands) {
        assert(d == sorted);
        assert forall|i: int, j: int| 0 <= i < r.len() && 0 <= j < r.len() && i != j implies r[i]
            != r[j] by {
            let a = picks[i];
            let b = picks[j];
            assert(a != b);
            if a < b {
                assert(d[a].id != d[b].id);
            } else {
                assert(d[b].id != d[a].id);
            }
        }
    }
}

} // verus!
