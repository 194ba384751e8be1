//! Best-first beam search over a graph.
use crate::candidate;
use crate::candidate::Candidate;
use crate::candidate::take_lowest;
use crate::course;
use crate::queue;
use crate::queue::Queue;
use crate::word;
use std::collections::HashSet;
use vstd::prelude::*;

verus! {

/// A graph as one query sees it: which nodes there are, how far each is from the
/// query, where each leads, and which may be answers.
pub trait SearchSpace {
    /// Whether the id names a node.
    closed spec fn holds(&self, id: u32) -> bool {
        vstd::pervasive::arbitrary()
    }

    /// The distance of a node from the query.
    closed spec fn dist_of(&self, id: u32) -> u32 {
        vstd::pervasive::arbitrary()
    }

    /// The nodes that a node leads to.
    closed spec fn links_of(&self, id: u32) -> Seq<u32> {
        vstd::pervasive::arbitrary()
    }

    /// Whether a node may be an answer.
    closed spec fn keeps(&self, id: u32) -> bool {
        vstd::pervasive::arbitrary()
    }

    /// A distance times a factor.
    closed spec fn scaled(&self, dist: u32, factor: u32) -> u32 {
        vstd::pervasive::arbitrary()
    }

    fn distance(&self, id: u32) -> (d: u32)
        requires
            self.holds(id),
        ensures
            d == self.dist_of(id),
    ;

    fn neighbors(&self, id: u32) -> (r: Vec<u32>)
        requires
            self.holds(id),
        ensures
            r@ == self.links_of(id),
    ;

    fn keep(&self, id: u32) -> (r: bool)
        requires
            self.holds(id),
        ensures
            r == self.keeps(id),
    ;

    fn scale(&self, dist: u32, factor: u32) -> (r: u32)
        ensures
            r == self.scaled(dist, factor),
    ;
}

/// Nodes lead to nodes only.
pub open spec fn is_closed<S: SearchSpace>(space: &S) -> bool {
    forall|id: u32, i: int|
        space.holds(id) && 0 <= i < space.links_of(id).len() ==> space.holds(
            #[trigger] space.links_of(id)[i],
        )
}

/// Every distance is a number.
pub open spec fn is_numeric<S: SearchSpace>(space: &S) -> bool {
    forall|id: u32| space.holds(id) ==> !word::is_nan(#[trigger] space.dist_of(id))
}

/// How a search is bounded.
#[derive(Clone, Copy, Debug)]
pub struct BeamSearchConfig {
    /// When set, the search keeps a beam of this size, and gathers separately the
    /// answers that the space keeps.
    pub expanded_beam: Option<usize>,
    /// At most this many nodes are expanded.
    pub max_iterations: Option<usize>,
    /// A search that gathers answers stops once the nearest node still to be expanded
    /// is farther than the worst of `k` answers times this factor.
    pub early_term_factor: Option<u32>,
}

/// A search that nothing bounds.
pub open spec fn unbounded() -> BeamSearchConfig {
    BeamSearchConfig { expanded_beam: None, max_iterations: None, early_term_factor: None }
}

impl Default for BeamSearchConfig {
    fn default() -> (r: Self)
        ensures
            r == unbounded(),
    {
        BeamSearchConfig { expanded_beam: None, max_iterations: None, early_term_factor: None }
    }
}

/// What a search has done when it stops.
#[verifier::ext_equal]
pub struct Trace {
    /// The nodes whose distance was computed.
    pub seen: Set<u32>,
    /// The nodes whose neighbours were looked at, in turn.
    pub expanded: Seq<u32>,
    /// Nodes taken in that were not expanded.
    pub pending: Seq<Candidate>,
    /// The beam.
    pub beam: Seq<Candidate>,
}

/// A start, or a node that one of the expanded nodes leads to.
pub open spec fn reached<S: SearchSpace>(
    space: &S,
    starts: Seq<u32>,
    expanded: Seq<u32>,
    id: u32,
) -> bool {
    starts.contains(id) || exists|i: int|
        0 <= i < expanded.len() && (#[trigger] space.links_of(expanded[i])).contains(id)
}

/// The candidate's distance is that of its node, and the node was seen.
pub open spec fn is_true<S: SearchSpace>(space: &S, seen: Set<u32>, s: Seq<Candidate>) -> bool {
    forall|i: int|
        0 <= i < s.len() ==> seen.contains((#[trigger] s[i]).id) && s[i].dist == space.dist_of(
            s[i].id,
        )
}

/// The beam holds the nearest nodes seen: everything while there is room, and nothing
/// farther than a node that it left out.
pub open spec fn beam_is_best<S: SearchSpace>(
    space: &S,
    width: int,
    seen: Set<u32>,
    beam: Seq<Candidate>,
) -> bool {
    &&& candidate::distinct(beam)
    &&& is_true(space, seen, beam)
    &&& forall|id: u32| #[trigger]
        seen.contains(id) && !candidate::holds_id(beam, id) ==> beam.len() >= width && (is_numeric(
            space,
        ) ==> forall|i: int|
            0 <= i < beam.len() ==> word::order((#[trigger] beam[i]).dist) <= word::order(
                space.dist_of(id),
            ))
}

/// Each node was expanded when none that was reached and not expanded was nearer.
pub open spec fn is_best_first<S: SearchSpace>(
    space: &S,
    starts: Seq<u32>,
    expanded: Seq<u32>,
) -> bool {
    forall|i: int, id: u32|
        0 <= i < expanded.len() && #[trigger] reached(space, starts, expanded.take(i), id)
            && !expanded.take(i).contains(id) ==> word::order(space.dist_of(expanded[i]))
            <= word::order(space.dist_of(id))
}

/// A search from `starts` with a beam of `width` has got as far as `t`.
pub open spec fn explored<S: SearchSpace>(
    space: &S,
    starts: Seq<u32>,
    width: int,
    t: Trace,
) -> bool {
    &&& forall|id: u32| #[trigger]
        t.seen.contains(id) <==> reached(space, starts, t.expanded, id)
    &&& t.expanded.no_duplicates()
    &&& forall|i: int|
        0 <= i < t.expanded.len() ==> reached(
            space,
            starts,
            t.expanded.take(i),
            #[trigger] t.expanded[i],
        )
    &&& is_numeric(space) ==> is_best_first(space, starts, t.expanded)
    &&& candidate::distinct(t.pending)
    &&& is_true(space, t.seen, t.pending)
    &&& beam_is_best(space, width, t.seen, t.beam)
    &&& forall|i: int|
        0 <= i < t.beam.len() ==> candidate::holds_id(t.pending, (#[trigger] t.beam[i]).id)
            || t.expanded.contains(t.beam[i].id)
    &&& starts.len() > 0 ==> t.beam.len() > 0
    &&& t.beam.len() <= width || t.beam.len() <= starts.len()
}

/// Nothing that is pending can improve a full beam.
pub open spec fn finished<S: SearchSpace>(space: &S, width: int, t: Trace) -> bool {
    t.pending.len() == 0 || (t.beam.len() >= width && (is_numeric(space) ==> forall|i: int, j: int|
        0 <= i < t.beam.len() && 0 <= j < t.pending.len() ==> word::order(
            (#[trigger] t.beam[i]).dist,
        ) <= word::order((#[trigger] t.pending[j]).dist)))
}

/// The nearest pending node is farther than the last of `k` answers times the factor.
pub open spec fn out_of_range<S: SearchSpace>(
    space: &S,
    config: BeamSearchConfig,
    k: int,
    t: Trace,
    answers: Seq<Candidate>,
) -> bool {
    &&& config.early_term_factor matches Some(factor)
    &&& word::magnitude(factor) < word::INFINITY
    &&& answers.len() > 0
    &&& answers.len() >= k
    &&& word::at_most(word::ZERO, answers.last().dist)
    &&& exists|j: int|
        0 <= j < t.pending.len() && word::less(
            space.scaled(answers.last().dist, word::max_of(factor, word::ONE)),
            (#[trigger] t.pending[j]).dist,
        ) && forall|i: int|
            0 <= i < t.pending.len() ==> word::order(t.pending[j].dist) <= word::order(
                (#[trigger] t.pending[i]).dist,
            )
}

/// Why the search stopped.
pub open spec fn stopped<S: SearchSpace>(
    space: &S,
    width: int,
    config: BeamSearchConfig,
    k: int,
    t: Trace,
    answers: Seq<Candidate>,
) -> bool {
    ||| finished(space, width, t)
    ||| (config.max_iterations matches Some(limit) && t.expanded.len() == limit)
    ||| (config.expanded_beam is Some && out_of_range(space, config, k, t, answers))
}

/// The answers are the `k` nearest of the nodes seen that the space keeps.
pub open spec fn kept_best<S: SearchSpace>(
    space: &S,
    seen: Set<u32>,
    k: int,
    answers: Seq<Candidate>,
) -> bool {
    &&& answers.len() <= k
    &&& candidate::distinct(answers)
    &&& is_true(space, seen, answers)
    &&& forall|i: int| 0 <= i < answers.len() ==> space.keeps((#[trigger] answers[i]).id)
    &&& is_numeric(space) ==> in_order(answers)
    &&& forall|id: u32| #[trigger]
        seen.contains(id) && space.keeps(id) && !candidate::holds_id(answers, id) ==> answers.len()
            == k && (is_numeric(space) ==> forall|i: int|
            0 <= i < answers.len() ==> word::order((#[trigger] answers[i]).dist) <= word::order(
                space.dist_of(id),
            ))
}

/// Distances never fall from one candidate to the next.
pub open spec fn in_order(s: Seq<Candidate>) -> bool {
    forall|i: int, j: int|
        0 <= i < j < s.len() ==> word::order((#[trigger] s[i]).dist) <= word::order(
            (#[trigger] s[j]).dist,
        )
}

/// The candidates that the space keeps, in turn.
pub open spec fn admitted<S: SearchSpace>(space: &S, s: Seq<Candidate>) -> Seq<Candidate>
    decreases s.len(),
{
    if s.len() == 0 {
        Seq::empty()
    } else if space.keeps(s.last().id) {
        admitted(space, s.drop_last()).push(s.last())
    } else {
        admitted(space, s.drop_last())
    }
}

/// What is kept of candidates are those that the space keeps, each as often as it was.
pub proof fn lemma_admitted<S: SearchSpace>(space: &S, s: Seq<Candidate>)
    ensures
        admitted(space, s).len() <= s.len(),
        candidate::distinct(s) ==> candidate::distinct(admitted(space, s)),
        forall|c: Candidate| #[trigger]
            admitted(space, s).contains(c) <==> s.contains(c) && space.keeps(c.id),
        (forall|i: int| 0 <= i < s.len() ==> space.keeps((#[trigger] s[i]).id)) ==> admitted(
            space,
            s,
        ) == s,
    decreases s.len(),
{
    if s.len() > 0 {
        let front = s.drop_last();
        let n = s.len() - 1;
        lemma_admitted(space, front);
        let before = admitted(space, front);
        let now = admitted(space, s);
        assert forall|c: Candidate| #[trigger] now.contains(c) <==> s.contains(c) && space.keeps(c.id) by {
            if now.contains(c) {
                let i = choose|i: int| 0 <= i < now.len() && now[i] == c;
                if i < before.len() {
                    assert(before[i] == c);
                    assert(before.contains(c));
                    let j = choose|j: int| 0 <= j < front.len() && front[j] == c;
                    assert(s[j] == c);
                } else {
                    assert(s[n] == c);
                }
            }
            if s.contains(c) && space.keeps(c.id) {
                let i = choose|i: int| 0 <= i < s.len() && s[i] == c;
                if i < n {
                    assert(front[i] == c);
                    assert(before.contains(c));
                    let j = choose|j: int| 0 <= j < before.len() && before[j] == c;
                    assert(now[j] == c);
                } else {
                    assert(now[before.len() as int] == c);
                }
            }
        }
        if candidate::distinct(s) {
            assert(candidate::distinct(front)) by {
                assert forall|i: int, j: int| 0 <= i < j < front.len() implies (#[trigger] front[i]).id
                    != (#[trigger] front[j]).id by {
                    assert(s[i].id != s[j].id);
                }
            }
            assert forall|i: int, j: int| 0 <= i < j < now.len() implies (#[trigger] now[i]).id != (
            #[trigger] now[j]).id by {
                if j < before.len() {
                    assert(before[i].id != before[j].id);
                } else {
                    assert(before.contains(before[i]));
                    let m = choose|m: int| 0 <= m < front.len() && front[m] == before[i];
                    assert(s[m].id != s[n].id);
                }
            }
        }
        if forall|i: int| 0 <= i < s.len() ==> space.keeps((#[trigger] s[i]).id) {
            assert forall|i: int| 0 <= i < front.len() implies space.keeps((#[trigger] front[i]).id) by {
                assert(front[i] == s[i]);
            }
            assert(space.keeps(s[n].id));
            assert(now =~= s);
        }
    }
}

/// What `beam_search` returns.
pub open spec fn search_outcome<S: SearchSpace>(
    space: &S,
    starts: Seq<u32>,
    beam_width: int,
    k: int,
    config: BeamSearchConfig,
    t: Trace,
    r: Seq<Candidate>,
) -> bool {
    &&& course::is_course(
        space,
        starts,
        beam_width,
        k,
        config,
        t,
        if config.expanded_beam is Some {
            r
        } else {
            Seq::empty()
        },
    )
    &&& config.max_iterations matches Some(limit) ==> t.expanded.len() <= limit
    &&& match config.expanded_beam {
        None => {
            &&& explored(space, starts, beam_width, t)
            &&& stopped(space, beam_width, config, k, t, Seq::empty())
            &&& candidate::lowest(admitted(space, t.beam), k, r)
        },
        Some(width) => {
            &&& explored(space, starts, width as int, t)
            &&& stopped(space, width as int, config, k, t, r)
            &&& kept_best(space, t.seen, k, r)
        },
    }
}

struct Explorer {
    visited: HashSet<u32>,
    frontier: Queue<u32>,
    beam: Queue<u32>,
    answers: Vec<Candidate>,
    expanded: Ghost<Seq<u32>>,
}

impl Explorer {
    spec fn base<S: SearchSpace>(&self, space: &S, width: int) -> bool {
        &&& self.frontier.wf()
        &&& self.frontier.nearest_first()
        &&& self.beam.wf()
        &&& !self.beam.nearest_first()
        &&& forall|id: u32| #[trigger] self.visited@.contains(id) ==> space.holds(id)
        &&& self.expanded@.no_duplicates()
        &&& forall|i: int|
            0 <= i < self.expanded@.len() ==> self.visited@.contains(
                #[trigger] self.expanded@[i],
            ) && !candidate::holds_id(self.frontier@, self.expanded@[i])
        &&& candidate::distinct(self.frontier@)
        &&& is_true(space, self.visited@, self.frontier@)
        &&& beam_is_best(space, width, self.visited@, self.beam@)
        &&& forall|i: int|
            0 <= i < self.beam@.len() ==> candidate::holds_id(
                self.frontier@,
                (#[trigger] self.beam@[i]).id,
            ) || self.expanded@.contains(self.beam@[i].id)
    }

    spec fn inv<S: SearchSpace>(&self, space: &S, width: int, gather: bool, k: int) -> bool {
        &&& self.base(space, width)
        &&& self.frontier@.len() > 0 ==> self.beam@.len() > 0
        &&& gather ==> kept_best(space, self.visited@, k, self.answers@)
    }

    spec fn trace(&self) -> Trace {
        Trace {
            seen: self.visited@,
            expanded: self.expanded@,
            pending: self.frontier@,
            beam: self.beam@,
        }
    }

    spec fn state(&self, answers: Seq<Candidate>) -> course::State {
        course::State { trace: self.trace(), answers }
    }

    /// No node that was seen and not expanded is nearer than the nearest pending one,
    /// unless the beam is full of nearer ones.
    proof fn lemma_nearest<S: SearchSpace>(&self, space: &S, width: int)
        requires
            self.base(space, width),
            is_numeric(space),
            self.frontier@.len() > 0,
            self.beam@.len() > 0,
            self.beam@.len() >= width ==> !word::at_most(
                self.beam@.last().dist,
                self.frontier@.last().dist,
            ),
        ensures
            forall|id: u32| #[trigger]
                self.visited@.contains(id) && !self.expanded@.contains(id) ==> word::order(
                    space.dist_of(self.frontier@.last().id),
                ) <= word::order(space.dist_of(id)),
    {
        self.frontier.lemma_last();
        self.beam.lemma_last();
        let n = self.frontier@.len() - 1;
        let best = self.frontier@.last();
        assert(self.frontier@[n] == best);
        assert(self.visited@.contains(best.id) && best.dist == space.dist_of(best.id));
        assert forall|id: u32| #[trigger]
            self.visited@.contains(id) && !self.expanded@.contains(id) implies word::order(
            space.dist_of(best.id),
        ) <= word::order(space.dist_of(id)) by {
            if candidate::holds_id(self.frontier@, id) {
                let i = choose|i: int|
                    0 <= i < self.frontier@.len() && (#[trigger] self.frontier@[i]).id == id;
                assert(self.frontier@[i].dist == space.dist_of(id));
            } else {
                if candidate::holds_id(self.beam@, id) {
                    let i = choose|i: int|
                        0 <= i < self.beam@.len() && (#[trigger] self.beam@[i]).id == id;
                    assert(false);
                }
                let m = self.beam@.len() - 1;
                let worst = self.beam@[m];
                assert(self.visited@.contains(worst.id) && worst.dist == space.dist_of(worst.id));
                assert(!word::is_nan(space.dist_of(worst.id)));
                assert(!word::is_nan(space.dist_of(best.id)));
                assert(word::order(worst.dist) <= word::order(space.dist_of(id)));
            }
        }
    }

    /// Moves the nearest pending node to the expanded ones.
    fn advance<S: SearchSpace>(&mut self, space: &S, Ghost(width): Ghost<int>) -> (id: u32)
        requires
            old(self).base(space, width),
            old(self).frontier@.len() > 0,
        ensures
            final(self).base(space, width),
            id == old(self).frontier@.last().id,
            old(self).visited@.contains(id),
            final(self).visited@ == old(self).visited@,
            final(self).frontier@ == old(self).frontier@.drop_last(),
            final(self).beam@ == old(self).beam@,
            final(self).answers@ == old(self).answers@,
            final(self).expanded@ == old(self).expanded@.push(id),
    {
        let ghost pending = self.frontier@;
        let cur: Candidate = match self.frontier.pop() {
            Some(cur) => cur,
            None => Candidate { dist: 0, id: 0 },
        };
        proof {
            let n = pending.len() - 1;
            let rest = self.frontier@;
            let id = cur.id;
            assert(pending[n] == cur);
            assert(old(self).visited@.contains(pending[n].id));
            assert(candidate::holds_id(pending, id));
            assert(!candidate::holds_id(rest, id)) by {
                if candidate::holds_id(rest, id) {
                    let i = choose|i: int| 0 <= i < rest.len() && (#[trigger] rest[i]).id == id;
                    assert(pending[i].id == pending[n].id);
                }
            }
            assert forall|x: u32| x != id implies (candidate::holds_id(pending, x)
                <==> #[trigger] candidate::holds_id(rest, x)) by {
                if candidate::holds_id(pending, x) {
                    let i = choose|i: int| 0 <= i < pending.len() && (#[trigger] pending[i]).id == x;
                    assert(rest[i].id == x);
                }
                if candidate::holds_id(rest, x) {
                    let i = choose|i: int| 0 <= i < rest.len() && (#[trigger] rest[i]).id == x;
                    assert(pending[i].id == x);
                }
            }
            let more = self.expanded@.push(id);
            assert forall|i: int| 0 <= i < more.len() implies self.visited@.contains(
                #[trigger] more[i],
            ) && !candidate::holds_id(rest, more[i]) by {
                if i < self.expanded@.len() {
                    assert(more[i] == self.expanded@[i]);
                }
            }
            assert(!self.expanded@.contains(id));
            assert(more.contains(id)) by {
                assert(more[self.expanded@.len() as int] == id);
            }
            assert forall|x: u32| self.expanded@.contains(x) implies #[trigger] more.contains(x) by {
                let i = choose|i: int| 0 <= i < self.expanded@.len() && self.expanded@[i] == x;
                assert(more[i] == x);
            }
            assert(more.no_duplicates());
            self.expanded@ = more;
        }
        cur.id
    }

    /// Takes a node in as a start.
    fn seed<S: SearchSpace>(&mut self, space: &S, id: u32, Ghost(width): Ghost<int>) -> (d: u32)
        requires
            old(self).base(space, width),
            forall|x: u32|
                old(self).visited@.contains(x) ==> #[trigger] candidate::holds_id(
                    old(self).beam@,
                    x,
                ),
            space.holds(id),
            !old(self).visited@.contains(id),
        ensures
            final(self).base(space, width),
            forall|x: u32|
                final(self).visited@.contains(x) ==> #[trigger] candidate::holds_id(
                    final(self).beam@,
                    x,
                ),
            final(self).visited@ == old(self).visited@.insert(id),
            final(self).expanded@ == old(self).expanded@,
            final(self).answers@ == old(self).answers@,
            final(self).beam@.len() == old(self).beam@.len() + 1,
            final(self).frontier@ == queue::placed(
                true,
                old(self).frontier@,
                course::node(space, id),
            ),
            final(self).beam@ == queue::placed(false, old(self).beam@, course::node(space, id)),
            d == space.dist_of(id),
    {
        broadcast use vstd::std_specs::hash::group_hash_axioms;

        let d: u32 = space.distance(id);
        let c = Candidate { dist: d, id };
        self.visited.insert(id);
        proof {
            if candidate::holds_id(self.frontier@, id) {
                let i = choose|i: int|
                    0 <= i < self.frontier@.len() && (#[trigger] self.frontier@[i]).id == id;
                assert(old(self).visited@.contains(self.frontier@[i].id));
            }
            if candidate::holds_id(self.beam@, id) {
                let i = choose|i: int|
                    0 <= i < self.beam@.len() && (#[trigger] self.beam@[i]).id == id;
                assert(old(self).visited@.contains(self.beam@[i].id));
            }
        }
        self.frontier.push(c);
        self.beam.push(c);
        proof {
            lemma_pushed(space, old(self).visited@, self.visited@, old(self).frontier@, self.frontier@, c);
            lemma_pushed(space, old(self).visited@, self.visited@, old(self).beam@, self.beam@, c);
            assert forall|i: int| 0 <= i < self.beam@.len() implies candidate::holds_id(
                self.frontier@,
                (#[trigger] self.beam@[i]).id,
            ) || self.expanded@.contains(self.beam@[i].id) by {
                let x = self.beam@[i];
                assert(self.beam@.contains(x));
                if x != c {
                    let j = choose|j: int| 0 <= j < old(self).beam@.len() && old(self).beam@[j] == x;
                    assert(old(self).beam@[j].id == x.id);
                }
            }
        }
        d
    }

    /// Takes a neighbour in: into the beam where there is room or it is nearer than
    /// the worst there.
    #[verifier::rlimit(40)]
    fn take_in<S: SearchSpace>(&mut self, space: &S, id: u32, width: usize) -> (d: u32)
        requires
            old(self).base(space, width as int),
            old(self).beam@.len() > 0,
            space.holds(id),
            !old(self).visited@.contains(id),
        ensures
            final(self).base(space, width as int),
            final(self).visited@ == old(self).visited@.insert(id),
            final(self).expanded@ == old(self).expanded@,
            final(self).answers@ == old(self).answers@,
            final(self).beam@.len() > 0,
            final(self).beam@.len() == old(self).beam@.len() || final(self).beam@.len() <= width,
            final(self).trace() == course::taken_in(space, width as int, old(self).trace(), id),
            d == space.dist_of(id),
    {
        broadcast use vstd::std_specs::hash::group_hash_axioms;

        let d: u32 = space.distance(id);
        let c = Candidate { dist: d, id };
        self.visited.insert(id);
        let ghost beam = self.beam@;
        let ghost pending = self.frontier@;
        proof {
            if candidate::holds_id(pending, id) {
                let i = choose|i: int| 0 <= i < pending.len() && (#[trigger] pending[i]).id == id;
                assert(old(self).visited@.contains(pending[i].id));
            }
            if candidate::holds_id(beam, id) {
                let i = choose|i: int| 0 <= i < beam.len() && (#[trigger] beam[i]).id == id;
                assert(old(self).visited@.contains(beam[i].id));
            }
        }
        if self.beam.len() < width {
            self.beam.push(c);
            self.frontier.push(c);
            proof {
                lemma_pushed(space, old(self).visited@, self.visited@, pending, self.frontier@, c);
                lemma_pushed(space, old(self).visited@, self.visited@, beam, self.beam@, c);
                assert forall|i: int| 0 <= i < self.beam@.len() implies candidate::holds_id(
                    self.frontier@,
                    (#[trigger] self.beam@[i]).id,
                ) || self.expanded@.contains(self.beam@[i].id) by {
                    let x = self.beam@[i];
                    assert(self.beam@.contains(x));
                    if x != c {
                        let j = choose|j: int| 0 <= j < beam.len() && beam[j] == x;
                        assert(beam[j].id == x.id);
                    }
                }
            }
            return d;
        }
        let worst: Candidate = match self.beam.peek() {
            Some(worst) => worst,
            None => c,
        };
        proof {
            self.beam.lemma_last();
        }
        if word::lt(d, worst.dist) {
            let _ = self.beam.pop();
            let ghost rest = self.beam@;
            proof {
                assert(rest == beam.drop_last());
                assert(candidate::distinct(rest));
                assert(is_true(space, old(self).visited@, rest));
                assert(!candidate::holds_id(rest, id)) by {
                    if candidate::holds_id(rest, id) {
                        let i = choose|i: int| 0 <= i < rest.len() && (#[trigger] rest[i]).id == id;
                        assert(beam[i].id == id);
                    }
                }
            }
            self.beam.push(c);
            self.frontier.push(c);
            proof {
                lemma_pushed(space, old(self).visited@, self.visited@, pending, self.frontier@, c);
                lemma_pushed(space, old(self).visited@, self.visited@, rest, self.beam@, c);
                assert forall|i: int| 0 <= i < self.beam@.len() implies candidate::holds_id(
                    self.frontier@,
                    (#[trigger] self.beam@[i]).id,
                ) || self.expanded@.contains(self.beam@[i].id) by {
                    let x = self.beam@[i];
                    assert(self.beam@.contains(x));
                    if x != c {
                        let j = choose|j: int| 0 <= j < rest.len() && rest[j] == x;
                        assert(beam[j].id == x.id);
                    }
                }
                lemma_replaced(space, width as int, old(self).visited@, self.visited@, beam, self.beam@, c);
            }
        } else {
            proof {
                assert forall|x: u32| #[trigger]
                    self.visited@.contains(x) && !candidate::holds_id(self.beam@, x) implies self.beam@.len()
                    >= width && (is_numeric(space) ==> forall|i: int|
                    0 <= i < self.beam@.len() ==> word::order((#[trigger] self.beam@[i]).dist)
                        <= word::order(space.dist_of(x))) by {
                    if x == id && is_numeric(space) {
                        assert(!word::is_nan(space.dist_of(id)));
                        assert(beam.last() == worst);
                        assert(old(self).visited@.contains(beam[beam.len() - 1].id));
                        assert(!word::is_nan(space.dist_of(worst.id)));
                    } else {
                        assert(x != id ==> old(self).visited@.contains(x));
                    }
                }
            }
        }
        d
    }
}

/// A nearer candidate in place of the worst leaves the beam the best.
proof fn lemma_replaced<S: SearchSpace>(
    space: &S,
    width: int,
    seen: Set<u32>,
    seen2: Set<u32>,
    beam: Seq<Candidate>,
    t: Seq<Candidate>,
    c: Candidate,
)
    requires
        beam_is_best(space, width, seen, beam),
        beam.len() >= width,
        beam.len() > 0,
        forall|id: u32| #[trigger] seen2.contains(id) ==> space.holds(id),
        seen2 == seen.insert(c.id),
        c.dist == space.dist_of(c.id),
        is_true(space, seen2, t),
        candidate::distinct(t),
        t.len() == beam.len(),
        forall|x: Candidate| #[trigger] t.contains(x) <==> beam.drop_last().contains(x) || x == c,
        forall|i: int|
            0 <= i < beam.len() ==> word::order((#[trigger] beam[i]).dist) <= word::order(
                beam.last().dist,
            ),
        word::less(c.dist, beam.last().dist),
    ensures
        beam_is_best(space, width, seen2, t),
{
    let worst = beam.last();
    assert forall|x: u32| #[trigger] seen2.contains(x) && !candidate::holds_id(t, x) implies t.len()
        >= width && (is_numeric(space) ==> forall|i: int|
        0 <= i < t.len() ==> word::order((#[trigger] t[i]).dist) <= word::order(
            space.dist_of(x),
        )) by {
        assert(t.contains(c));
        let ci = choose|i: int| 0 <= i < t.len() && t[i] == c;
        assert(t[ci].id == c.id);
        assert(x != c.id);
        assert(seen.contains(x));
        if is_numeric(space) {
            assert(word::order(worst.dist) <= word::order(space.dist_of(x))) by {
                assert(beam[beam.len() - 1] == worst);
                if candidate::holds_id(beam, x) {
                    let i = choose|i: int| 0 <= i < beam.len() && (#[trigger] beam[i]).id == x;
                    if i < beam.len() - 1 {
                        assert(beam.drop_last()[i] == beam[i]);
                        assert(beam.drop_last().contains(beam[i]));
                        assert(t.contains(beam[i]));
                        let j = choose|j: int| 0 <= j < t.len() && t[j] == beam[i];
                        assert(t[j].id == x);
                    }
                    assert(i == beam.len() - 1);
                    assert(seen.contains(beam[i].id));
                }
            }
            assert forall|i: int| 0 <= i < t.len() implies word::order((#[trigger] t[i]).dist)
                <= word::order(space.dist_of(x)) by {
                assert(t.contains(t[i]));
                if t[i] != c {
                    let j = choose|j: int|
                        0 <= j < beam.drop_last().len() && beam.drop_last()[j] == t[i];
                    assert(beam[j] == t[i]);
                }
            }
        }
    }
}

/// A candidate added to a sequence leaves its distances true.
proof fn lemma_pushed<S: SearchSpace>(
    space: &S,
    seen: Set<u32>,
    seen2: Set<u32>,
    s: Seq<Candidate>,
    t: Seq<Candidate>,
    c: Candidate,
)
    requires
        is_true(space, seen, s),
        seen2 == seen.insert(c.id),
        c.dist == space.dist_of(c.id),
        forall|x: Candidate| #[trigger] t.contains(x) ==> s.contains(x) || x == c,
    ensures
        is_true(space, seen2, t),
{
    assert forall|i: int| 0 <= i < t.len() implies seen2.contains((#[trigger] t[i]).id)
        && t[i].dist == space.dist_of(t[i].id) by {
        assert(t.contains(t[i]));
        if t[i] != c {
            let j = choose|j: int| 0 <= j < s.len() && s[j] == t[i];
            assert(seen.contains(s[j].id));
        }
    }
}

/// Puts a candidate at its place among the `k` best.
#[verifier::rlimit(40)]
fn offer<S: SearchSpace>(
    answers: &mut Vec<Candidate>,
    c: Candidate,
    k: usize,
    space: &S,
    Ghost(seen): Ghost<Set<u32>>,
)
    requires
        kept_best(space, seen, k as int, old(answers)@),
        forall|id: u32| #[trigger] seen.contains(id) ==> space.holds(id),
        space.holds(c.id),
        space.keeps(c.id),
        !seen.contains(c.id),
        c.dist == space.dist_of(c.id),
    ensures
        kept_best(space, seen.insert(c.id), k as int, final(answers)@),
        final(answers)@ == course::offered(old(answers)@, c, k as int),
{
    let ghost s = answers@;
    let ghost seen2 = seen.insert(c.id);
    let mut pos: usize = 0;
    while pos < answers.len() && !word::lt(c.dist, answers[pos].dist)
        invariant
            answers@ == s,
            pos <= s.len(),
            course::spot(s, c.dist, 0) == course::spot(s, c.dist, pos as int),
            forall|i: int| 0 <= i < pos ==> !word::less(c.dist, (#[trigger] s[i]).dist),
        decreases s.len() - pos,
    {
        pos = pos + 1;
    }
    proof {
        if is_numeric(space) {
            assert(!word::is_nan(space.dist_of(c.id)));
            assert forall|i: int| 0 <= i < s.len() implies !word::is_nan((#[trigger] s[i]).dist) by {
                assert(seen.contains(s[i].id));
                assert(!word::is_nan(space.dist_of(s[i].id)));
            }
        }
        assert(!candidate::holds_id(s, c.id)) by {
            if candidate::holds_id(s, c.id) {
                let i = choose|i: int| 0 <= i < s.len() && (#[trigger] s[i]).id == c.id;
                assert(seen.contains(s[i].id));
            }
        }
    }
    if pos < k {
        answers.insert(pos, c);
        let ghost t = answers@;
        proof {
            assert(t == s.insert(pos as int, c));
            assert(t[pos as int] == c);
            assert forall|i: int| 0 <= i < t.len() && i != pos implies #[trigger] t[i] == s[
                if i < pos {
                    i
                } else {
                    i - 1
                }
            ] by {}
            assert(is_true(space, seen2, t));
            assert(candidate::distinct(t));
            if is_numeric(space) {
                assert forall|i: int| pos <= i < s.len() implies word::order(c.dist) < word::order(
                    (#[trigger] s[i]).dist,
                ) by {
                    assert(word::less(c.dist, s[pos as int].dist));
                    assert(pos < i ==> word::order(s[pos as int].dist) <= word::order(s[i].dist));
                }
                assert(in_order(t));
            }
            assert forall|id: u32| candidate::holds_id(s, id) || id == c.id implies #[trigger]
                candidate::holds_id(t, id) by {
                if id == c.id {
                    assert(t[pos as int].id == id);
                } else {
                    let i = choose|i: int| 0 <= i < s.len() && (#[trigger] s[i]).id == id;
                    assert(t[
                        if i < pos {
                            i
                        } else {
                            i + 1
                        }
                    ].id == id);
                }
            }
        }
        if answers.len() > k {
            let _ = answers.pop();
            let ghost u = answers@;
            proof {
                assert(u == t.drop_last());
                assert(t.len() == k + 1);
                assert forall|id: u32| #[trigger]
                    seen2.contains(id) && space.keeps(id) && !candidate::holds_id(u, id) implies u.len()
                    == k && (is_numeric(space) ==> forall|i: int|
                    0 <= i < u.len() ==> word::order((#[trigger] u[i]).dist) <= word::order(
                        space.dist_of(id),
                    )) by {
                    if is_numeric(space) {
                        let last = t[t.len() - 1];
                        if candidate::holds_id(t, id) {
                            let i = choose|i: int| 0 <= i < t.len() && (#[trigger] t[i]).id == id;
                            if i < t.len() - 1 {
                                assert(u[i].id == id);
                            }
                            assert(last.dist == space.dist_of(id));
                            assert forall|i: int| 0 <= i < u.len() implies word::order(
                                (#[trigger] u[i]).dist,
                            ) <= word::order(space.dist_of(id)) by {
                                assert(u[i] == t[i]);
                            }
                        } else {
                            assert(seen.contains(id));
                            assert(!candidate::holds_id(s, id));
                            assert(s.len() == k);
                            assert forall|i: int| 0 <= i < u.len() implies word::order(
                                (#[trigger] u[i]).dist,
                            ) <= word::order(space.dist_of(id)) by {
                                assert(u[i] == t[i]);
                                assert(word::order(t[i].dist) <= word::order(last.dist));
                                assert(last == s[s.len() - 1] || last == c);
                                if last == c {
                                    assert(pos == s.len());
                                }
                            }
                        }
                    }
                }
            }
        } else {
            proof {
                assert(s.len() < k);
                assert forall|id: u32| #[trigger]
                    seen2.contains(id) && space.keeps(id) implies candidate::holds_id(t, id) by {
                    assert(id == c.id || seen.contains(id));
                }
            }
        }
    } else {
        proof {
            assert forall|id: u32| #[trigger]
                seen2.contains(id) && space.keeps(id) && !candidate::holds_id(s, id) implies s.len()
                == k && (is_numeric(space) ==> forall|i: int|
                0 <= i < s.len() ==> word::order((#[trigger] s[i]).dist) <= word::order(
                    space.dist_of(id),
                )) by {
                if id != c.id {
                    assert(seen.contains(id));
                }
            }
        }
    }
}

/// Distinct 32-bit numbers are at most 2^32 many.
pub proof fn lemma_distinct_u32(s: Seq<u32>)
    requires
        s.no_duplicates(),
    ensures
        s.len() <= 0x1_0000_0000,
{
    let t = s.map_values(|x: u32| x as int);
    assert(t.no_duplicates()) by {
        assert forall|i: int, j: int| 0 <= i < t.len() && 0 <= j < t.len() && i != j implies t[i]
            != t[j] by {
            assert(s[i] != s[j]);
        }
    }
    let range = vstd::set_lib::set_int_range(0, 0x1_0000_0000);
    vstd::set_lib::lemma_int_range(0, 0x1_0000_0000);
    t.unique_seq_to_set();
    assert(t.to_set().subset_of(range));
    vstd::set_lib::lemma_len_subset(t.to_set(), range);
}

/// Expanding one more node reaches its neighbours, and nothing else.
proof fn lemma_reached_push<S: SearchSpace>(
    space: &S,
    starts: Seq<u32>,
    expanded: Seq<u32>,
    cur: u32,
    id: u32,
)
    ensures
        reached(space, starts, expanded.push(cur), id) <==> reached(space, starts, expanded, id)
            || space.links_of(cur).contains(id),
{
    let more = expanded.push(cur);
    if reached(space, starts, expanded, id) && !starts.contains(id) {
        let i = choose|i: int|
            0 <= i < expanded.len() && (#[trigger] space.links_of(expanded[i])).contains(id);
        assert(more[i] == expanded[i]);
        assert(space.links_of(more[i]).contains(id));
    }
    if space.links_of(cur).contains(id) {
        assert(more[expanded.len() as int] == cur);
        assert(space.links_of(more[expanded.len() as int]).contains(id));
    }
    if reached(space, starts, more, id) && !starts.contains(id) {
        let i = choose|i: int|
            0 <= i < more.len() && (#[trigger] space.links_of(more[i])).contains(id);
        if i < expanded.len() {
            assert(more[i] == expanded[i]);
            assert(space.links_of(expanded[i]).contains(id));
        }
    }
}

/// The lowest `k` of the starts that the space keeps are its best answers so far.
proof fn lemma_first_answers<S: SearchSpace>(
    space: &S,
    seen: Set<u32>,
    kept: Seq<Candidate>,
    k: int,
    r: Seq<Candidate>,
)
    requires
        k >= 0,
        candidate::distinct(kept),
        is_true(space, seen, kept),
        forall|id: u32| #[trigger] seen.contains(id) ==> space.holds(id),
        forall|i: int| 0 <= i < kept.len() ==> space.keeps((#[trigger] kept[i]).id),
        forall|id: u32| #[trigger]
            seen.contains(id) && space.keeps(id) ==> candidate::holds_id(kept, id),
        candidate::lowest(kept, k, r),
    ensures
        kept_best(space, seen, k, r),
{
    let all = choose|all: Seq<Candidate>| #[trigger]
        candidate::same_items(all, kept) && candidate::ranked(all) && r == candidate::first(all, k);
    assert(kept.to_multiset() =~= all.to_multiset());
    candidate::lemma_same_items(kept, all);
    assert forall|i: int| 0 <= i < all.len() implies kept.contains(#[trigger] all[i]) by {
        assert(all.contains(all[i]));
    }
    assert forall|i: int| 0 <= i < all.len() implies seen.contains((#[trigger] all[i]).id)
        && all[i].dist == space.dist_of(all[i].id) && space.keeps(all[i].id) by {
        let j = choose|j: int| 0 <= j < kept.len() && kept[j] == all[i];
        assert(seen.contains(kept[j].id));
    }
    if is_numeric(space) {
        assert forall|i: int, j: int| 0 <= i < j < all.len() implies word::order(
            (#[trigger] all[i]).dist,
        ) <= word::order((#[trigger] all[j]).dist) by {
            assert(!word::is_nan(space.dist_of(all[i].id)));
            assert(!word::is_nan(space.dist_of(all[j].id)));
            word::rank_refines_order(all[i].dist, all[j].dist);
        }
    }
    assert forall|id: u32| #[trigger]
        seen.contains(id) && space.keeps(id) && !candidate::holds_id(r, id) implies r.len() == k && (
    is_numeric(space) ==> forall|i: int|
        0 <= i < r.len() ==> word::order((#[trigger] r[i]).dist) <= word::order(
            space.dist_of(id),
        )) by {
        assert(candidate::holds_id(all, id));
        let j = choose|j: int| 0 <= j < all.len() && (#[trigger] all[j]).id == id;
        if j < r.len() {
            assert(r[j].id == id);
        }
    }
}

/// Without gathering, taking starts in leaves no answers.
proof fn lemma_no_seeds<S: SearchSpace>(space: &S, starts: Seq<u32>, n: int)
    ensures
        course::seeded_by(space, false, starts, n).answers.len() == 0,
    decreases n,
{
    if n > 0 {
        lemma_no_seeds(space, starts, n - 1);
    }
}

/// Searches a graph from `start_ids`, nearest nodes first, and returns the `k` best
/// of what the beam holds; or, with an expanded beam, of the kept nodes met.
#[verifier::rlimit(40)]
pub fn beam_search<S: SearchSpace>(
    space: &S,
    start_ids: &[u32],
    beam_width: usize,
    k: usize,
    config: BeamSearchConfig,
) -> (r: Vec<Candidate>)
    requires
        is_closed(space),
        forall|i: int| 0 <= i < start_ids@.len() ==> space.holds(#[trigger] start_ids@[i]),
    ensures
        exists|t: Trace| #[trigger]
            search_outcome(space, start_ids@, beam_width as int, k as int, config, t, r@),
{
    broadcast use vstd::std_specs::hash::group_hash_axioms;

    let gather: bool = config.expanded_beam.is_some();
    let width: usize = match config.expanded_beam {
        Some(width) => width,
        None => beam_width,
    };
    let ghost starts = start_ids@;
    let mut ex = Explorer {
        visited: HashSet::new(),
        frontier: Queue::new(true),
        beam: Queue::new(false),
        answers: Vec::new(),
        expanded: Ghost(Seq::empty()),
    };
    let mut kept: Vec<Candidate> = Vec::new();
    let mut i: usize = 0;
    assert(ex.state(kept@) =~= course::blank());
    while i < start_ids.len()
        invariant
            i <= starts.len(),
            starts == start_ids@,
            forall|i: int| 0 <= i < starts.len() ==> space.holds(#[trigger] starts[i]),
            ex.base(space, width as int),
            ex.expanded@ == Seq::<u32>::empty(),
            ex.answers@.len() == 0,
            ex.beam@.len() <= i,
            i > 0 ==> ex.beam@.len() > 0,
            forall|x: u32|
                ex.visited@.contains(x) ==> #[trigger] candidate::holds_id(ex.beam@, x),
            forall|x: u32| #[trigger]
                ex.visited@.contains(x) <==> starts.take(i as int).contains(x),
            ex.state(kept@) == course::seeded_by(
                space,
                gather,
                starts,
                i as int,
            ),
            candidate::distinct(kept@),
            is_true(space, ex.visited@, kept@),
            forall|j: int| 0 <= j < kept@.len() ==> space.keeps((#[trigger] kept@[j]).id),
            gather ==> forall|id: u32| #[trigger]
                ex.visited@.contains(id) && space.keeps(id) ==> candidate::holds_id(kept@, id),
        decreases starts.len() - i,
    {
        broadcast use vstd::std_specs::hash::group_hash_axioms;

        let sid: u32 = start_ids[i];
        let ghost before = ex.visited@;
        let ghost st = ex.state(kept@);
        proof {
            assert(starts.take(i + 1) =~= starts.take(i as int).push(sid));
            assert forall|x: u32| #[trigger] starts.take(i + 1).contains(x) <==> starts.take(
                i as int,
            ).contains(x) || x == sid by {
                let a = starts.take(i as int);
                let b = starts.take(i + 1);
                if a.contains(x) {
                    let j = choose|j: int| 0 <= j < a.len() && a[j] == x;
                    assert(b[j] == x);
                }
                assert(b[i as int] == sid);
            }
        }
        if !ex.visited.contains(&sid) {
            let d: u32 = ex.seed(space, sid, Ghost(width as int));
            if gather && space.keep(sid) {
                let c = Candidate { dist: d, id: sid };
                let ghost s = kept@;
                kept.push(c);
                proof {
                    assert forall|id: u32| candidate::holds_id(s, id) || id == sid implies #[trigger]
                        candidate::holds_id(kept@, id) by {
                        if id == sid {
                            assert(kept@[s.len() as int].id == sid);
                        } else {
                            let j = choose|j: int| 0 <= j < s.len() && (#[trigger] s[j]).id == id;
                            assert(kept@[j].id == id);
                        }
                    }
                    assert forall|j: int| 0 <= j < s.len() implies (#[trigger] s[j]).id != sid by {
                        assert(before.contains(s[j].id));
                    }
                }
            }
        }
        assert(ex.state(kept@) =~= course::seeded(
            space,
            gather,
            st,
            sid,
        ));
        i = i + 1;
    }
    assert(starts.take(starts.len() as int) =~= starts);
    let ghost seeds = kept@;
    if gather {
        let ghost all = kept@;
        ex.answers = take_lowest(kept, k);
        proof {
            lemma_first_answers(space, ex.visited@, all, k as int, ex.answers@);
        }
    }
    let mut iterations: u64 = 0;
    let mut running: bool = true;
    proof {
        if !gather {
            assert(seeds =~= Seq::empty()) by {
                lemma_no_seeds(space, starts, starts.len() as int);
            }
            assert(ex.answers@ =~= seeds);
        }
        assert(ex.state(ex.answers@) =~= course::begun(
            space,
            gather,
            starts,
            k as int,
        ));
        if ex.frontier@.len() > 0 {
            assert(ex.visited@.contains(ex.frontier@[0].id));
            assert(candidate::holds_id(ex.beam@, ex.frontier@[0].id));
        }
        assert forall|id: u32| ex.visited@.contains(id) implies #[trigger] reached(
            space,
            starts,
            ex.expanded@,
            id,
        ) by {}
    }
    while running
        invariant
            is_closed(space),
            starts == start_ids@,
            gather == config.expanded_beam.is_some(),
            width == match config.expanded_beam {
                Some(width) => width,
                None => beam_width,
            },
            ex.inv(space, width as int, gather, k as int),
            !gather ==> ex.answers@.len() == 0,
            explored(space, starts, width as int, ex.trace()),
            iterations == ex.expanded@.len(),
            width == course::width_of(beam_width as int, config),
            ex.state(ex.answers@) == course::after(
                space,
                starts,
                width as int,
                gather,
                k as int,
                iterations as int,
            ),
            forall|m: int|
                0 <= m < iterations ==> !course::halts(
                    space,
                    width as int,
                    config,
                    k as int,
                    #[trigger] course::after(space, starts, width as int, gather, k as int, m),
                ),
            !running ==> course::halts(
                space,
                width as int,
                config,
                k as int,
                ex.state(ex.answers@),
            ),
            config.max_iterations matches Some(limit) ==> iterations <= limit,
            !running ==> stopped(
                space,
                width as int,
                config,
                k as int,
                ex.trace(),
                ex.answers@,
            ),
        decreases
                0x1_0000_0000 - ex.expanded@.len(),
                if running {
                    1int
                } else {
                    0
                },
    {
        broadcast use vstd::std_specs::hash::group_hash_axioms;

        proof {
            lemma_distinct_u32(ex.expanded@);
        }
        let best: Candidate = match ex.frontier.peek() {
            Some(best) => best,
            None => {
                running = false;
                continue ;
            },
        };
        let limited: bool = match config.max_iterations {
            Some(limit) => iterations >= limit as u64,
            None => false,
        };
        if limited {
            running = false;
            continue ;
        }
        proof {
            ex.frontier.lemma_last();
            ex.beam.lemma_last();
        }
        if gather && ex.answers.len() > 0 && ex.answers.len() >= k {
            let worst: Candidate = ex.answers[ex.answers.len() - 1];
            let beyond: bool = match config.early_term_factor {
                Some(factor) => word::finite(factor) && word::le(word::ZERO, worst.dist) && word::lt(
                    space.scale(worst.dist, word::max(factor, word::ONE)),
                    best.dist,
                ),
                None => false,
            };
            if beyond {
                proof {
                    let t = ex.trace();
                    assert(t.pending[t.pending.len() - 1] == best);
                    assert(out_of_range(space, config, k as int, t, ex.answers@));
                }
                running = false;
                continue ;
            }
        }
        if ex.beam.len() >= width {
            let worst: Candidate = match ex.beam.peek() {
                Some(worst) => worst,
                None => best,
            };
            if word::le(worst.dist, best.dist) {
                proof {
                    assert(finished(space, width as int, ex.trace()));
                }
                running = false;
                continue ;
            }
        }
        let ghost before = ex;
        let ghost st = ex.state(ex.answers@);
        proof {
            assert(!course::halts(space, width as int, config, k as int, st));
            if is_numeric(space) {
                ex.lemma_nearest(space, width as int);
            }
        }
        let cur: u32 = ex.advance(space, Ghost(width as int));
        proof {
            assert(ex.state(ex.answers@) =~= course::advanced(
                st,
            ));
        }
        let ghost exp0 = before.expanded@;
        iterations = iterations + 1;
        let links: Vec<u32> = space.neighbors(cur);
        let mut j: usize = 0;
        assert(links@.take(0) =~= Seq::empty());
        while j < links.len()
            invariant
                is_closed(space),
                space.holds(cur),
                links@ == space.links_of(cur),
                ex.state(ex.answers@) == course::met_all(
                    space,
                    width as int,
                    gather,
                    k as int,
                    course::advanced(st),
                    links@,
                    j as int,
                ),
                j <= links@.len(),
                ex.inv(space, width as int, gather, k as int),
                ex.beam@.len() > 0,
                !gather ==> ex.answers@.len() == 0,
                ex.expanded@ == exp0.push(cur),
                ex.beam@.len() <= width || ex.beam@.len() <= starts.len(),
                forall|id: u32| #[trigger]
                    ex.visited@.contains(id) <==> reached(space, starts, exp0, id) || links@.take(
                        j as int,
                    ).contains(id),
            decreases links@.len() - j,
        {
            broadcast use vstd::std_specs::hash::group_hash_axioms;

            let nb: u32 = links[j];
            let ghost now = ex.state(ex.answers@);
            proof {
                let a = links@.take(j as int);
                let b = links@.take(j + 1);
                assert(b =~= a.push(nb));
                assert forall|x: u32| #[trigger] b.contains(x) <==> a.contains(x) || x == nb by {
                    if a.contains(x) {
                        let m = choose|m: int| 0 <= m < a.len() && a[m] == x;
                        assert(b[m] == x);
                    }
                    assert(b[j as int] == nb);
                }
                assert(space.holds(space.links_of(cur)[j as int]));
            }
            if !ex.visited.contains(&nb) {
                let ghost seen = ex.visited@;
                let d: u32 = ex.take_in(space, nb, width);
                if gather {
                    if space.keep(nb) {
                        offer(
                            &mut ex.answers,
                            Candidate { dist: d, id: nb },
                            k,
                            space,
                            Ghost(seen),
                        );
                    }
                }
            }
            assert(ex.state(ex.answers@) =~= course::met(
                space,
                width as int,
                gather,
                k as int,
                now,
                nb,
            ));
            j = j + 1;
        }
        proof {
            assert(links@.take(links@.len() as int) =~= links@);
            assert forall|id: u32| #[trigger] ex.visited@.contains(id) <==> reached(
                space,
                starts,
                ex.expanded@,
                id,
            ) by {
                lemma_reached_push(space, starts, exp0, cur, id);
            }
            let more = ex.expanded@;
            lemma_distinct_u32(more);
            if is_numeric(space) {
                assert forall|m: int, id: u32|
                    0 <= m < more.len() && #[trigger] reached(space, starts, more.take(m), id)
                        && !more.take(m).contains(id) implies word::order(space.dist_of(more[m]))
                    <= word::order(space.dist_of(id)) by {
                    if m < exp0.len() {
                        assert(more.take(m) =~= exp0.take(m));
                        assert(more[m] == exp0[m]);
                    } else {
                        assert(more.take(m) =~= exp0);
                        assert(before.visited@.contains(id));
                        assert(more[m] == cur);
                    }
                }
            }
            assert forall|m: int| 0 <= m < more.len() implies reached(
                space,
                starts,
                more.take(m),
                #[trigger] more[m],
            ) by {
                if m < exp0.len() {
                    assert(more.take(m) =~= exp0.take(m));
                    assert(more[m] == exp0[m]);
                } else {
                    assert(more.take(m) =~= exp0);
                    assert(before.visited@.contains(cur));
                }
            }
        }
    }
    let ghost t = ex.trace();
    proof {
        assert(course::ends_after(
            space,
            starts,
            beam_width as int,
            k as int,
            config,
            iterations as int,
        ));
        assert(course::is_course(
            space,
            starts,
            beam_width as int,
            k as int,
            config,
            t,
            ex.answers@,
        ));
    }
    if gather {
        let r = ex.answers;
        assert(search_outcome(space, start_ids@, beam_width as int, k as int, config, t, r@));
        r
    } else {
        assert(ex.answers@ =~= Seq::empty());
        let all = ex.beam.into_vec();
        proof {
            assert forall|i: int| 0 <= i < all@.len() implies space.holds((#[trigger] all@[i]).id) by {
                assert(t.seen.contains(t.beam[i].id));
            }
        }
        let r = take_lowest(keep_some(space, &all), k);
        assert(search_outcome(space, start_ids@, beam_width as int, k as int, config, t, r@));
        r
    }
}

/// The candidates that the space keeps.
fn keep_some<S: SearchSpace>(space: &S, all: &Vec<Candidate>) -> (r: Vec<Candidate>)
    requires
        forall|i: int| 0 <= i < all@.len() ==> space.holds((#[trigger] all@[i]).id),
    ensures
        r@ == admitted(space, all@),
{
    let mut r: Vec<Candidate> = Vec::new();
    let mut i: usize = 0;
    assert(all@.take(0) =~= Seq::empty());
    while i < all.len()
        invariant
            i <= all@.len(),
            forall|i: int| 0 <= i < all@.len() ==> space.holds((#[trigger] all@[i]).id),
            r@ == admitted(space, all@.take(i as int)),
        decreases all@.len() - i,
    {
        let ghost more = all@.take(i + 1);
        proof {
            assert(more.drop_last() =~= all@.take(i as int));
            assert(space.holds(all@[i as int].id));
        }
        let c: Candidate = all[i];
        if space.keep(c.id) {
            r.push(c);
        }
        i = i + 1;
    }
    assert(all@.take(all@.len() as int) =~= all@);
    r
}

/// A walk along links from a start to `id`.
pub open spec fn is_walk<S: SearchSpace>(
    space: &S,
    starts: Seq<u32>,
    path: Seq<u32>,
    id: u32,
) -> bool {
    &&& path.len() > 0
    &&& starts.contains(path[0])
    &&& path.last() == id
    &&& forall|i: int|
        0 < i < path.len() ==> space.links_of(path[i - 1]).contains(#[trigger] path[i])
}

/// Whether some walk leads from a start to `id`.
pub open spec fn reachable<S: SearchSpace>(space: &S, starts: Seq<u32>, id: u32) -> bool {
    exists|path: Seq<u32>| #[trigger] is_walk(space, starts, path, id)
}

proof fn lemma_step<S: SearchSpace>(space: &S, starts: Seq<u32>, from: u32, to: u32)
    requires
        reachable(space, starts, from),
        space.links_of(from).contains(to),
    ensures
        reachable(space, starts, to),
{
    let path = choose|path: Seq<u32>| #[trigger] is_walk(space, starts, path, from);
    let more = path.push(to);
    assert forall|i: int| 0 < i < more.len() implies space.links_of(more[i - 1]).contains(
        #[trigger] more[i],
    ) by {
        if i < path.len() {
            assert(more[i] == path[i] && more[i - 1] == path[i - 1]);
        } else {
            assert(more[i - 1] == path.last());
        }
    }
    assert(is_walk(space, starts, more, to));
}

proof fn lemma_reached_is_reachable<S: SearchSpace>(
    space: &S,
    starts: Seq<u32>,
    width: int,
    t: Trace,
    n: int,
    id: u32,
)
    requires
        explored(space, starts, width, t),
        0 <= n <= t.expanded.len(),
        reached(space, starts, t.expanded.take(n), id),
    ensures
        reachable(space, starts, id),
    decreases n,
{
    if starts.contains(id) {
        assert(is_walk(space, starts, seq![id], id));
    } else {
        let part = t.expanded.take(n);
        let i = choose|i: int|
            0 <= i < part.len() && (#[trigger] space.links_of(part[i])).contains(id);
        let from = t.expanded[i];
        assert(part[i] == from);
        lemma_reached_is_reachable(space, starts, width, t, i, from);
        lemma_step(space, starts, from, id);
    }
}

/// Only what the links lead to from the starts is ever seen.
pub proof fn seen_is_reachable<S: SearchSpace>(
    space: &S,
    starts: Seq<u32>,
    width: int,
    t: Trace,
    id: u32,
)
    requires
        explored(space, starts, width, t),
        t.seen.contains(id),
    ensures
        reachable(space, starts, id),
{
    assert(t.expanded.take(t.expanded.len() as int) =~= t.expanded);
    lemma_reached_is_reachable(space, starts, width, t, t.expanded.len() as int, id);
}

proof fn lemma_walk_holds<S: SearchSpace>(space: &S, starts: Seq<u32>, path: Seq<u32>, i: int)
    requires
        is_closed(space),
        forall|i: int| 0 <= i < starts.len() ==> space.holds(#[trigger] starts[i]),
        is_walk(space, starts, path, path.last()),
        0 <= i < path.len(),
    ensures
        space.holds(path[i]),
    decreases i,
{
    if i == 0 {
        let j = choose|j: int| 0 <= j < starts.len() && starts[j] == path[0];
        assert(space.holds(starts[j]));
    } else {
        lemma_walk_holds(space, starts, path, i - 1);
        let links = space.links_of(path[i - 1]);
        assert(links.contains(path[i]));
        let j = choose|j: int| 0 <= j < links.len() && links[j] == path[i];
        assert(space.holds(space.links_of(path[i - 1])[j]));
    }
}

/// What is reachable is a node.
pub proof fn reachable_is_held<S: SearchSpace>(space: &S, starts: Seq<u32>, id: u32)
    requires
        is_closed(space),
        forall|i: int| 0 <= i < starts.len() ==> space.holds(#[trigger] starts[i]),
        reachable(space, starts, id),
    ensures
        space.holds(id),
{
    let path = choose|path: Seq<u32>| #[trigger] is_walk(space, starts, path, id);
    lemma_walk_holds(space, starts, path, path.len() - 1);
}

/// The answers of a search are at most `k` nodes, no node twice, each with its own
/// distance and reachable from the starts, nearest first; and each is one that the
/// space keeps.
pub proof fn answers_are_sound<S: SearchSpace>(
    space: &S,
    starts: Seq<u32>,
    beam_width: int,
    k: int,
    config: BeamSearchConfig,
    t: Trace,
    r: Seq<Candidate>,
)
    requires
        k >= 0,
        is_closed(space),
        forall|i: int| 0 <= i < starts.len() ==> space.holds(#[trigger] starts[i]),
        search_outcome(space, starts, beam_width, k, config, t, r),
    ensures
        r.len() <= k,
        candidate::distinct(r),
        forall|i: int|
            0 <= i < r.len() ==> {
                &&& t.seen.contains((#[trigger] r[i]).id)
                &&& space.holds(r[i].id)
                &&& r[i].dist == space.dist_of(r[i].id)
                &&& reachable(space, starts, r[i].id)
                &&& space.keeps(r[i].id)
            },
        is_numeric(space) ==> in_order(r),
{
    let width = match config.expanded_beam {
        Some(width) => width as int,
        None => beam_width,
    };
    if config.expanded_beam is None {
        let beam = admitted(space, t.beam);
        let all = choose|all: Seq<Candidate>| #[trigger]
            candidate::same_items(all, beam) && candidate::ranked(all) && r == candidate::first(
                all,
                k,
            );
        assert(beam.to_multiset() =~= all.to_multiset());
        candidate::lemma_same_items(beam, all);
        lemma_admitted(space, t.beam);
        assert forall|i: int| 0 <= i < r.len() implies t.seen.contains((#[trigger] r[i]).id)
            && r[i].dist == space.dist_of(r[i].id) && space.keeps(r[i].id) by {
            assert(r[i] == all[i]);
            assert(all.contains(all[i]));
            assert(beam.contains(all[i]));
            let j = choose|j: int| 0 <= j < t.beam.len() && t.beam[j] == all[i];
            assert(t.seen.contains(t.beam[j].id));
        }
        assert(candidate::ranked(r));
    }
    assert forall|i: int| 0 <= i < r.len() implies reachable(space, starts, (#[trigger] r[i]).id)
        && space.holds(r[i].id) by {
        assert(t.seen.contains(r[i].id));
        seen_is_reachable(space, starts, width, t, r[i].id);
        reachable_is_held(space, starts, r[i].id);
    }
    if is_numeric(space) && config.expanded_beam is None {
        assert forall|i: int, j: int| 0 <= i < j < r.len() implies word::order(
            (#[trigger] r[i]).dist,
        ) <= word::order((#[trigger] r[j]).dist) by {
            assert(!word::is_nan(space.dist_of(r[i].id)));
            assert(!word::is_nan(space.dist_of(r[j].id)));
            word::rank_refines_order(r[i].dist, r[j].dist);
        }
    }
}

proof fn lemma_walk_is_seen<S: SearchSpace>(
    space: &S,
    starts: Seq<u32>,
    width: int,
    t: Trace,
    path: Seq<u32>,
    i: int,
)
    requires
        explored(space, starts, width, t),
        forall|id: u32| #[trigger] t.seen.contains(id) ==> t.expanded.contains(id),
        is_walk(space, starts, path, path.last()),
        0 <= i < path.len(),
    ensures
        t.seen.contains(path[i]),
    decreases i,
{
    if i == 0 {
        assert(reached(space, starts, t.expanded, path[0]));
    } else {
        lemma_walk_is_seen(space, starts, width, t, path, i - 1);
        assert(t.expanded.contains(path[i - 1]));
        let j = choose|j: int| 0 <= j < t.expanded.len() && t.expanded[j] == path[i - 1];
        assert(space.links_of(t.expanded[j]).contains(path[i]));
        assert(reached(space, starts, t.expanded, path[i]));
    }
}

/// Distinct candidates with ids from a set are no more than the set has, and when they
/// are as many no id is missing.
proof fn lemma_pigeonhole(s: Seq<Candidate>, ids: Set<u32>, id: u32)
    requires
        ids.finite(),
        candidate::distinct(s),
        forall|i: int| 0 <= i < s.len() ==> ids.contains((#[trigger] s[i]).id),
    ensures
        s.len() <= ids.len(),
        s.len() == ids.len() && ids.contains(id) ==> candidate::holds_id(s, id),
{
    let t = s.map_values(|c: Candidate| c.id);
    assert(t.no_duplicates()) by {
        assert forall|i: int, j: int| 0 <= i < t.len() && 0 <= j < t.len() && i != j implies t[i]
            != t[j] by {
            if i < j {
                assert(s[i].id != s[j].id);
            } else {
                assert(s[j].id != s[i].id);
            }
        }
    }
    t.unique_seq_to_set();
    assert(t.to_set().subset_of(ids)) by {
        assert forall|x: u32| t.to_set().contains(x) implies ids.contains(x) by {
            let i = choose|i: int| 0 <= i < t.len() && t[i] == x;
            assert(ids.contains(s[i].id));
        }
    }
    vstd::set_lib::lemma_len_subset(t.to_set(), ids);
    if s.len() == ids.len() && ids.contains(id) {
        vstd::set_lib::lemma_subset_equality(t.to_set(), ids);
        assert(t.to_set().contains(id));
        let i = choose|i: int| 0 <= i < t.len() && t[i] == id;
        assert(s[i].id == id);
    }
}

/// A search without limits whose beam has room for every node that the starts lead to
/// returns the `k` nearest of those that the space keeps.
pub proof fn wide_beam_is_exact<S: SearchSpace>(
    space: &S,
    starts: Seq<u32>,
    beam_width: int,
    k: int,
    config: BeamSearchConfig,
    t: Trace,
    r: Seq<Candidate>,
    nodes: Set<u32>,
    id: u32,
)
    requires
        k >= 0,
        is_closed(space),
        is_numeric(space),
        forall|i: int| 0 <= i < starts.len() ==> space.holds(#[trigger] starts[i]),
        nodes.finite(),
        forall|id: u32| #[trigger] reachable(space, starts, id) ==> nodes.contains(id),
        nodes.len() <= beam_width,
        config.expanded_beam is None,
        config.max_iterations is None,
        search_outcome(space, starts, beam_width, k, config, t, r),
        reachable(space, starts, id),
        space.keeps(id),
    ensures
        candidate::holds_id(r, id) || (r.len() == k && forall|i: int|
            0 <= i < r.len() ==> word::order((#[trigger] r[i]).dist) <= word::order(
                space.dist_of(id),
            )),
{
    assert forall|i: int| 0 <= i < t.beam.len() implies nodes.contains((#[trigger] t.beam[i]).id) by {
        assert(t.seen.contains(t.beam[i].id));
        seen_is_reachable(space, starts, beam_width, t, t.beam[i].id);
    }
    lemma_pigeonhole(t.beam, nodes, id);
    assert(candidate::holds_id(t.beam, id)) by {
        if t.beam.len() < nodes.len() {
            assert(t.pending.len() == 0);
            assert forall|x: u32| #[trigger] t.seen.contains(x) implies t.expanded.contains(x) by {
                assert(candidate::holds_id(t.beam, x));
                let i = choose|i: int| 0 <= i < t.beam.len() && (#[trigger] t.beam[i]).id == x;
                assert(!candidate::holds_id(t.pending, t.beam[i].id));
            }
            let path = choose|path: Seq<u32>| #[trigger] is_walk(space, starts, path, id);
            lemma_walk_is_seen(space, starts, beam_width, t, path, path.len() - 1);
            assert(t.seen.contains(id));
        }
    }
    let beam = admitted(space, t.beam);
    lemma_admitted(space, t.beam);
    let all = choose|all: Seq<Candidate>| #[trigger]
        candidate::same_items(all, beam) && candidate::ranked(all) && r == candidate::first(
            all,
            k,
        );
    assert(beam.to_multiset() =~= all.to_multiset());
    candidate::lemma_same_items(beam, all);
    assert(candidate::holds_id(beam, id)) by {
        let i = choose|i: int| 0 <= i < t.beam.len() && (#[trigger] t.beam[i]).id == id;
        assert(t.beam.contains(t.beam[i]));
        assert(beam.contains(t.beam[i]));
        let j = choose|j: int| 0 <= j < beam.len() && beam[j] == t.beam[i];
        assert(beam[j].id == id);
    }
    assert(candidate::holds_id(all, id));
    let j = choose|j: int| 0 <= j < all.len() && (#[trigger] all[j]).id == id;
    assert forall|i: int| 0 <= i < all.len() implies t.seen.contains((#[trigger] all[i]).id)
        && all[i].dist == space.dist_of(all[i].id) && !word::is_nan(all[i].dist) by {
        assert(all.contains(all[i]));
        assert(beam.contains(all[i]));
        let m = choose|m: int| 0 <= m < t.beam.len() && t.beam[m] == all[i];
        assert(t.seen.contains(t.beam[m].id));
        seen_is_reachable(space, starts, beam_width, t, all[i].id);
        reachable_is_held(space, starts, all[i].id);
        assert(!word::is_nan(space.dist_of(all[i].id)));
    }
    if j < r.len() {
        assert(r[j].id == id);
    } else {
        assert forall|i: int| 0 <= i < r.len() implies word::order((#[trigger] r[i]).dist)
            <= word::order(space.dist_of(id)) by {
            assert(r[i] == all[i]);
            assert(all[j].dist == space.dist_of(id));
            word::rank_refines_order(all[i].dist, all[j].dist);
        }
    }
}

/// The two spaces hold the same nodes, with the same links, at the same distances, and
/// keep the same of them.
pub open spec fn same_space<S: SearchSpace, T: SearchSpace>(a: &S, b: &T) -> bool {
    &&& forall|id: u32| #[trigger] a.holds(id) == b.holds(id)
    &&& forall|id: u32| a.holds(id) ==> #[trigger] a.dist_of(id) == b.dist_of(id)
    &&& forall|id: u32| a.holds(id) ==> #[trigger] a.links_of(id) == b.links_of(id)
    &&& forall|id: u32| a.holds(id) ==> #[trigger] a.keeps(id) == b.keeps(id)
    &&& forall|dist: u32, factor: u32| #[trigger] a.scaled(dist, factor) == b.scaled(dist, factor)
}

proof fn lemma_same_back<S: SearchSpace, T: SearchSpace>(a: &S, b: &T)
    requires
        same_space(a, b),
        is_closed(a),
    ensures
        same_space(b, a),
        is_closed(b),
{
    assert forall|id: u32| #[trigger] b.holds(id) == a.holds(id) by {
        assert(a.holds(id) == b.holds(id));
    }
    assert forall|id: u32| b.holds(id) implies #[trigger] b.dist_of(id) == a.dist_of(id) by {
        assert(a.holds(id) && a.dist_of(id) == b.dist_of(id));
    }
    assert forall|id: u32| b.holds(id) implies #[trigger] b.links_of(id) == a.links_of(id) by {
        assert(a.holds(id) && a.links_of(id) == b.links_of(id));
    }
    assert forall|id: u32| b.holds(id) implies #[trigger] b.keeps(id) == a.keeps(id) by {
        assert(a.holds(id) && a.keeps(id) == b.keeps(id));
    }
    assert forall|dist: u32, factor: u32| #[trigger]
        b.scaled(dist, factor) == a.scaled(dist, factor) by {
        assert(a.scaled(dist, factor) == b.scaled(dist, factor));
    }
    assert forall|id: u32, i: int|
        b.holds(id) && 0 <= i < b.links_of(id).len() implies b.holds(
        #[trigger] b.links_of(id)[i],
    ) by {
        assert(a.holds(id) && a.links_of(id) == b.links_of(id));
        assert(a.holds(a.links_of(id)[i]));
    }
}

proof fn lemma_same_reached<S: SearchSpace, T: SearchSpace>(
    a: &S,
    b: &T,
    starts: Seq<u32>,
    expanded: Seq<u32>,
    id: u32,
)
    requires
        same_space(a, b),
        forall|i: int| 0 <= i < expanded.len() ==> a.holds(#[trigger] expanded[i]),
    ensures
        reached(a, starts, expanded, id) == reached(b, starts, expanded, id),
{
    if reached(a, starts, expanded, id) && !starts.contains(id) {
        let i = choose|i: int|
            0 <= i < expanded.len() && (#[trigger] a.links_of(expanded[i])).contains(id);
        assert(a.links_of(expanded[i]) == b.links_of(expanded[i]));
    }
    if reached(b, starts, expanded, id) && !starts.contains(id) {
        let i = choose|i: int|
            0 <= i < expanded.len() && (#[trigger] b.links_of(expanded[i])).contains(id);
        assert(a.links_of(expanded[i]) == b.links_of(expanded[i]));
    }
}

proof fn lemma_same_admitted<S: SearchSpace, T: SearchSpace>(a: &S, b: &T, s: Seq<Candidate>)
    requires
        same_space(a, b),
        forall|i: int| 0 <= i < s.len() ==> a.holds((#[trigger] s[i]).id),
    ensures
        admitted(a, s) == admitted(b, s),
    decreases s.len(),
{
    if s.len() > 0 {
        assert forall|i: int| 0 <= i < s.drop_last().len() implies a.holds(
            (#[trigger] s.drop_last()[i]).id,
        ) by {
            assert(a.holds(s[i].id));
        }
        lemma_same_admitted(a, b, s.drop_last());
        assert(a.holds(s[s.len() - 1].id));
        assert(a.keeps(s.last().id) == b.keeps(s.last().id));
    }
}

proof fn lemma_same_truth<S: SearchSpace, T: SearchSpace>(
    a: &S,
    b: &T,
    seen: Set<u32>,
    s: Seq<Candidate>,
)
    requires
        same_space(a, b),
        forall|id: u32| #[trigger] seen.contains(id) ==> a.holds(id),
        is_true(a, seen, s),
    ensures
        is_true(b, seen, s),
{
    assert forall|i: int| 0 <= i < s.len() implies seen.contains((#[trigger] s[i]).id) && s[i].dist
        == b.dist_of(s[i].id) by {
        assert(a.holds(s[i].id));
        assert(a.dist_of(s[i].id) == b.dist_of(s[i].id));
    }
}

#[verifier::spinoff_prover]
#[verifier::rlimit(30)]
proof fn lemma_same_outcome<S: SearchSpace, T: SearchSpace>(
    a: &S,
    b: &T,
    starts: Seq<u32>,
    beam_width: int,
    k: int,
    config: BeamSearchConfig,
    t: Trace,
    r: Seq<Candidate>,
)
    requires
        same_space(a, b),
        is_closed(a),
        forall|i: int| 0 <= i < starts.len() ==> a.holds(#[trigger] starts[i]),
        search_outcome(a, starts, beam_width, k, config, t, r),
    ensures
        search_outcome(b, starts, beam_width, k, config, t, r),
{
    let width: int = match config.expanded_beam {
        Some(w) => w as int,
        None => beam_width,
    };
    assert(explored(a, starts, width, t));
    assert(is_numeric(a) == is_numeric(b)) by {
        assert forall|id: u32| b.holds(id) && is_numeric(a) implies !word::is_nan(
            #[trigger] b.dist_of(id),
        ) by {
            assert(a.holds(id) && a.dist_of(id) == b.dist_of(id));
        }
        assert forall|id: u32| a.holds(id) && is_numeric(b) implies !word::is_nan(
            #[trigger] a.dist_of(id),
        ) by {
            assert(a.holds(id) == b.holds(id) && a.dist_of(id) == b.dist_of(id));
        }
    }
    assert forall|id: u32| #[trigger] t.seen.contains(id) implies a.holds(id) by {
        seen_is_reachable(a, starts, width, t, id);
        reachable_is_held(a, starts, id);
    }
    assert forall|i: int| 0 <= i < t.expanded.len() implies a.holds(#[trigger] t.expanded[i]) by {
        lemma_reached_is_reachable(a, starts, width, t, i, t.expanded[i]);
        reachable_is_held(a, starts, t.expanded[i]);
    }
    lemma_same_truth(a, b, t.seen, t.beam);
    lemma_same_truth(a, b, t.seen, t.pending);
    assert forall|i: int| 0 <= i < t.beam.len() implies a.holds((#[trigger] t.beam[i]).id) by {
        assert(t.seen.contains(t.beam[i].id));
    }
    lemma_same_admitted(a, b, t.beam);
    assert(beam_is_best(b, width, t.seen, t.beam)) by {
        assert forall|id: u32| #[trigger]
            t.seen.contains(id) && !candidate::holds_id(t.beam, id) implies t.beam.len() >= width
            && (is_numeric(b) ==> forall|i: int|
            0 <= i < t.beam.len() ==> word::order((#[trigger] t.beam[i]).dist) <= word::order(
                b.dist_of(id),
            )) by {
            assert(a.holds(id));
            assert(a.dist_of(id) == b.dist_of(id));
        }
    }
    if is_numeric(b) {
        assert forall|i: int, id: u32|
            0 <= i < t.expanded.len() && #[trigger] reached(b, starts, t.expanded.take(i), id)
                && !t.expanded.take(i).contains(id) implies word::order(b.dist_of(t.expanded[i]))
            <= word::order(b.dist_of(id)) by {
            let part = t.expanded.take(i);
            assert forall|j: int| 0 <= j < part.len() implies a.holds(#[trigger] part[j]) by {
                assert(part[j] == t.expanded[j]);
            }
            lemma_same_reached(a, b, starts, part, id);
            lemma_reached_is_reachable(a, starts, width, t, i, id);
            reachable_is_held(a, starts, id);
            assert(a.holds(t.expanded[i]));
            assert(a.dist_of(id) == b.dist_of(id));
            assert(a.dist_of(t.expanded[i]) == b.dist_of(t.expanded[i]));
        }
    }
    assert(explored(b, starts, width, t)) by {
        assert forall|id: u32| #[trigger]
            t.seen.contains(id) <==> reached(b, starts, t.expanded, id) by {
            lemma_same_reached(a, b, starts, t.expanded, id);
        }
        assert forall|i: int| 0 <= i < t.expanded.len() implies reached(
            b,
            starts,
            t.expanded.take(i),
            #[trigger] t.expanded[i],
        ) by {
            let part = t.expanded.take(i);
            assert forall|j: int| 0 <= j < part.len() implies a.holds(#[trigger] part[j]) by {
                assert(part[j] == t.expanded[j]);
            }
            lemma_same_reached(a, b, starts, part, t.expanded[i]);
        }
    }
    let answers = if config.expanded_beam is Some {
        r
    } else {
        Seq::empty()
    };
    course::same_spaces_have_one_course(a, b, starts, beam_width, k, config, t, answers);
    assert(stopped(b, width, config, k, t, answers)) by {
        assert(stopped(a, width, config, k, t, answers));
        if config.expanded_beam is Some && out_of_range(a, config, k, t, answers) {
            let factor = config.early_term_factor->0;
            assert(a.scaled(answers.last().dist, word::max_of(factor, word::ONE)) == b.scaled(
                answers.last().dist,
                word::max_of(factor, word::ONE),
            ));
        }
    }
    if config.expanded_beam is Some {
        lemma_same_truth(a, b, t.seen, r);
        assert(kept_best(b, t.seen, k, r)) by {
            assert forall|i: int| 0 <= i < r.len() implies b.keeps((#[trigger] r[i]).id) by {
                assert(t.seen.contains(r[i].id));
                assert(a.keeps(r[i].id) == b.keeps(r[i].id));
            }
            assert forall|id: u32| #[trigger]
                t.seen.contains(id) && b.keeps(id) && !candidate::holds_id(r, id) implies r.len()
                == k && (is_numeric(b) ==> forall|i: int|
                0 <= i < r.len() ==> word::order((#[trigger] r[i]).dist) <= word::order(
                    b.dist_of(id),
                )) by {
                assert(a.holds(id));
                assert(a.keeps(id) == b.keeps(id));
                assert(a.dist_of(id) == b.dist_of(id));
            }
        }
    }
}

/// A search sees of a space its nodes, links, distances and filter only: what it finds in
/// one space it finds in one that is the same in these.
pub proof fn same_spaces_are_searched_alike<S: SearchSpace, T: SearchSpace>(
    a: &S,
    b: &T,
    starts: Seq<u32>,
    beam_width: int,
    k: int,
    config: BeamSearchConfig,
    t: Trace,
    r: Seq<Candidate>,
)
    requires
        same_space(a, b),
        is_closed(a),
        forall|i: int| 0 <= i < starts.len() ==> a.holds(#[trigger] starts[i]),
    ensures
        search_outcome(a, starts, beam_width, k, config, t, r) == search_outcome(
            b,
            starts,
            beam_width,
            k,
            config,
            t,
            r,
        ),
{
    if search_outcome(a, starts, beam_width, k, config, t, r) {
        lemma_same_outcome(a, b, starts, beam_width, k, config, t, r);
    }
    if search_outcome(b, starts, beam_width, k, config, t, r) {
        lemma_same_back(a, b);
        assert forall|i: int| 0 <= i < starts.len() implies b.holds(#[trigger] starts[i]) by {
            assert(a.holds(starts[i]));
        }
        lemma_same_outcome(b, a, starts, beam_width, k, config, t, r);
    }
}

/// Two searches of spaces with the same nodes, links, distances and filter return the
/// same list.
pub proof fn searches_agree<S: SearchSpace, T: SearchSpace>(
    a: &S,
    b: &T,
    starts: Seq<u32>,
    beam_width: int,
    k: int,
    config: BeamSearchConfig,
    t1: Trace,
    r1: Seq<Candidate>,
    t2: Trace,
    r2: Seq<Candidate>,
)
    requires
        same_space(a, b),
        is_closed(a),
        forall|i: int| 0 <= i < starts.len() ==> a.holds(#[trigger] starts[i]),
        search_outcome(a, starts, beam_width, k, config, t1, r1),
        search_outcome(b, starts, beam_width, k, config, t2, r2),
    ensures
        t1 == t2,
        r1 == r2,
{
    let gather = config.expanded_beam is Some;
    same_spaces_are_searched_alike(a, b, starts, beam_width, k, config, t2, r2);
    let none = Seq::<Candidate>::empty();
    course::course_is_unique(
        a,
        starts,
        beam_width,
        k,
        config,
        t1,
        if gather {
            r1
        } else {
            none
        },
        t2,
        if gather {
            r2
        } else {
            none
        },
    );
}

} // verus!
