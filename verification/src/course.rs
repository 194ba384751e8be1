//! The course of a beam search, step by step. What a search finds follows from it: two
//! searches of one space return the same list.
use crate::beam;
use crate::beam::BeamSearchConfig;
use crate::beam::SearchSpace;
use crate::beam::Trace;
use crate::candidate;
use crate::candidate::Candidate;
use crate::queue;
use crate::word;
use vstd::prelude::*;

verus! {

/// What a search has done, and the answers that it has gathered.
#[verifier::ext_equal]
pub struct State {
    pub trace: Trace,
    pub answers: Seq<Candidate>,
}

/// A node with its distance.
pub open spec fn node<S: SearchSpace>(space: &S, id: u32) -> Candidate {
    Candidate { dist: space.dist_of(id), id }
}

/// Nothing was looked at.
pub open spec fn blank() -> State {
    State {
        trace: Trace {
            seen: Set::empty(),
            expanded: Seq::empty(),
            pending: Seq::empty(),
            beam: Seq::empty(),
        },
        answers: Seq::empty(),
    }
}

/// A start was taken in.
pub open spec fn seeded<S: SearchSpace>(space: &S, gather: bool, st: State, id: u32) -> State {
    if st.trace.seen.contains(id) {
        st
    } else {
        let c = node(space, id);
        State {
            trace: Trace {
                seen: st.trace.seen.insert(id),
                expanded: st.trace.expanded,
                pending: queue::placed(true, st.trace.pending, c),
                beam: queue::placed(false, st.trace.beam, c),
            },
            answers: if gather && space.keeps(id) {
                st.answers.push(c)
            } else {
                st.answers
            },
        }
    }
}

/// The first `n` starts were taken in.
pub open spec fn seeded_by<S: SearchSpace>(
    space: &S,
    gather: bool,
    starts: Seq<u32>,
    n: int,
) -> State
    decreases n,
{
    if n <= 0 {
        blank()
    } else {
        seeded(space, gather, seeded_by(space, gather, starts, n - 1), starts[n - 1])
    }
}

/// The search is about to begin: of the starts, the `k` nearest that are kept are the
/// first answers, where answers are gathered.
pub open spec fn begun<S: SearchSpace>(space: &S, gather: bool, starts: Seq<u32>, k: int) -> State {
    let st = seeded_by(space, gather, starts, starts.len() as int);
    State {
        trace: st.trace,
        answers: if gather {
            candidate::first(candidate::sorted(st.answers), k)
        } else {
            st.answers
        },
    }
}

/// Where, from position `i` on, the first answer stands that is farther than `dist`.
pub open spec fn spot(answers: Seq<Candidate>, dist: u32, i: int) -> int
    decreases answers.len() - i,
{
    if i >= answers.len() || word::less(dist, answers[i].dist) {
        i
    } else {
        spot(answers, dist, i + 1)
    }
}

/// An answer was put at its place among the `k` best.
pub open spec fn offered(answers: Seq<Candidate>, c: Candidate, k: int) -> Seq<Candidate> {
    let at = spot(answers, c.dist, 0);
    if at < k {
        let more = answers.insert(at, c);
        if more.len() > k {
            more.drop_last()
        } else {
            more
        }
    } else {
        answers
    }
}

/// A neighbour was taken in: into the beam where there is room or it is nearer than the
/// worst there.
pub open spec fn taken_in<S: SearchSpace>(space: &S, width: int, t: Trace, id: u32) -> Trace {
    let c = node(space, id);
    if t.beam.len() < width {
        Trace {
            seen: t.seen.insert(id),
            expanded: t.expanded,
            pending: queue::placed(true, t.pending, c),
            beam: queue::placed(false, t.beam, c),
        }
    } else if word::less(c.dist, t.beam.last().dist) {
        Trace {
            seen: t.seen.insert(id),
            expanded: t.expanded,
            pending: queue::placed(true, t.pending, c),
            beam: queue::placed(false, t.beam.drop_last(), c),
        }
    } else {
        Trace {
            seen: t.seen.insert(id),
            expanded: t.expanded,
            pending: t.pending,
            beam: t.beam,
        }
    }
}

/// A neighbour was looked at.
pub open spec fn met<S: SearchSpace>(
    space: &S,
    width: int,
    gather: bool,
    k: int,
    st: State,
    id: u32,
) -> State {
    if st.trace.seen.contains(id) {
        st
    } else {
        State {
            trace: taken_in(space, width, st.trace, id),
            answers: if gather && space.keeps(id) {
                offered(st.answers, node(space, id), k)
            } else {
                st.answers
            },
        }
    }
}

/// The first `n` of some neighbours were looked at.
pub open spec fn met_all<S: SearchSpace>(
    space: &S,
    width: int,
    gather: bool,
    k: int,
    st: State,
    links: Seq<u32>,
    n: int,
) -> State
    decreases n,
{
    if n <= 0 {
        st
    } else {
        met(
            space,
            width,
            gather,
            k,
            met_all(space, width, gather, k, st, links, n - 1),
            links[n - 1],
        )
    }
}

/// The nearest pending node was moved to the expanded ones.
pub open spec fn advanced(st: State) -> State {
    State {
        trace: Trace {
            seen: st.trace.seen,
            expanded: st.trace.expanded.push(st.trace.pending.last().id),
            pending: st.trace.pending.drop_last(),
            beam: st.trace.beam,
        },
        answers: st.answers,
    }
}

/// The nearest pending node was expanded.
pub open spec fn stepped<S: SearchSpace>(
    space: &S,
    width: int,
    gather: bool,
    k: int,
    st: State,
) -> State {
    let links = space.links_of(st.trace.pending.last().id);
    met_all(space, width, gather, k, advanced(st), links, links.len() as int)
}

/// The nearest pending node is farther than the last of `k` answers times the factor.
pub open spec fn is_beyond<S: SearchSpace>(
    space: &S,
    config: BeamSearchConfig,
    k: int,
    st: State,
) -> bool {
    &&& config.expanded_beam is Some
    &&& config.early_term_factor matches Some(factor)
    &&& word::magnitude(factor) < word::INFINITY
    &&& st.answers.len() > 0
    &&& st.answers.len() >= k
    &&& word::at_most(word::ZERO, st.answers.last().dist)
    &&& word::less(
        space.scaled(st.answers.last().dist, word::max_of(factor, word::ONE)),
        st.trace.pending.last().dist,
    )
}

/// The search stops here: nothing is pending, the bound on expansions is reached, the
/// nearest pending node is beyond the answers, or it cannot improve a full beam.
pub open spec fn halts<S: SearchSpace>(
    space: &S,
    width: int,
    config: BeamSearchConfig,
    k: int,
    st: State,
) -> bool {
    let t = st.trace;
    ||| t.pending.len() == 0
    ||| (config.max_iterations matches Some(limit) && t.expanded.len() >= limit)
    ||| is_beyond(space, config, k, st)
    ||| (t.beam.len() >= width && t.beam.len() > 0 && word::at_most(
        t.beam.last().dist,
        t.pending.last().dist,
    ))
}

/// The state after `n` expansions.
pub open spec fn after<S: SearchSpace>(
    space: &S,
    starts: Seq<u32>,
    width: int,
    gather: bool,
    k: int,
    n: int,
) -> State
    decreases n,
{
    if n <= 0 {
        begun(space, gather, starts, k)
    } else {
        stepped(space, width, gather, k, after(space, starts, width, gather, k, n - 1))
    }
}

/// The beam that a configuration asks for.
pub open spec fn width_of(beam_width: int, config: BeamSearchConfig) -> int {
    match config.expanded_beam {
        Some(width) => width as int,
        None => beam_width,
    }
}

/// The search stops after `n` expansions, and not before.
pub open spec fn ends_after<S: SearchSpace>(
    space: &S,
    starts: Seq<u32>,
    beam_width: int,
    k: int,
    config: BeamSearchConfig,
    n: int,
) -> bool {
    let width = width_of(beam_width, config);
    let gather = config.expanded_beam is Some;
    &&& 0 <= n
    &&& halts(space, width, config, k, after(space, starts, width, gather, k, n))
    &&& forall|m: int|
        0 <= m < n ==> !halts(
            space,
            width,
            config,
            k,
            #[trigger] after(space, starts, width, gather, k, m),
        )
}

/// The search takes this course: it ends with `t` and the gathered answers.
pub open spec fn is_course<S: SearchSpace>(
    space: &S,
    starts: Seq<u32>,
    beam_width: int,
    k: int,
    config: BeamSearchConfig,
    t: Trace,
    answers: Seq<Candidate>,
) -> bool {
    exists|n: int| #[trigger]
        ends_after(space, starts, beam_width, k, config, n) && after(
            space,
            starts,
            width_of(beam_width, config),
            config.expanded_beam is Some,
            k,
            n,
        ) == (State { trace: t, answers })
}

/// A search takes one course only.
pub proof fn course_is_unique<S: SearchSpace>(
    space: &S,
    starts: Seq<u32>,
    beam_width: int,
    k: int,
    config: BeamSearchConfig,
    t1: Trace,
    answers1: Seq<Candidate>,
    t2: Trace,
    answers2: Seq<Candidate>,
)
    requires
        is_course(space, starts, beam_width, k, config, t1, answers1),
        is_course(space, starts, beam_width, k, config, t2, answers2),
    ensures
        t1 == t2,
        answers1 == answers2,
{
    let width = width_of(beam_width, config);
    let gather = config.expanded_beam is Some;
    let n = choose|n: int| #[trigger]
        ends_after(space, starts, beam_width, k, config, n) && after(
            space,
            starts,
            width,
            gather,
            k,
            n,
        ) == (State { trace: t1, answers: answers1 });
    let m = choose|m: int| #[trigger]
        ends_after(space, starts, beam_width, k, config, m) && after(
            space,
            starts,
            width,
            gather,
            k,
            m,
        ) == (State { trace: t2, answers: answers2 });
    if n < m {
        assert(!halts(space, width, config, k, after(space, starts, width, gather, k, n)));
    }
    if m < n {
        assert(!halts(space, width, config, k, after(space, starts, width, gather, k, m)));
    }
}

/// Everything seen is a node, and what is pending was seen.
spec fn is_inside<S: SearchSpace>(space: &S, t: Trace) -> bool {
    &&& forall|id: u32| #[trigger] t.seen.contains(id) ==> space.holds(id)
    &&& forall|i: int| 0 <= i < t.pending.len() ==> t.seen.contains((#[trigger] t.pending[i]).id)
}

proof fn lemma_place_bounds(nearest_first: bool, s: Seq<Candidate>, c: Candidate)
    ensures
        0 <= queue::place_of(nearest_first, s, c) <= s.len(),
    decreases s.len(),
{
    if s.len() > 0 {
        lemma_place_bounds(nearest_first, s.drop_last(), c);
    }
}

proof fn lemma_placed_inside(seen: Set<u32>, s: Seq<Candidate>, c: Candidate)
    requires
        forall|i: int| 0 <= i < s.len() ==> seen.contains((#[trigger] s[i]).id),
    ensures
        forall|i: int|
            0 <= i < queue::placed(true, s, c).len() ==> seen.insert(c.id).contains(
                (#[trigger] queue::placed(true, s, c)[i]).id,
            ),
{
    lemma_place_bounds(true, s, c);
    let at = queue::place_of(true, s, c);
    let t = queue::placed(true, s, c);
    assert forall|i: int| 0 <= i < t.len() implies seen.insert(c.id).contains((#[trigger] t[i]).id) by {
        if i < at {
            assert(t[i] == s[i]);
        } else if i > at {
            assert(t[i] == s[i - 1]);
        }
    }
}

proof fn lemma_same_seeds<S: SearchSpace, T: SearchSpace>(
    a: &S,
    b: &T,
    gather: bool,
    starts: Seq<u32>,
    n: int,
)
    requires
        beam::same_space(a, b),
        forall|i: int| 0 <= i < starts.len() ==> a.holds(#[trigger] starts[i]),
        n <= starts.len(),
    ensures
        seeded_by(a, gather, starts, n) == seeded_by(b, gather, starts, n),
        is_inside(a, seeded_by(a, gather, starts, n).trace),
    decreases n,
{
    if n > 0 {
        lemma_same_seeds(a, b, gather, starts, n - 1);
        let st = seeded_by(a, gather, starts, n - 1);
        let id = starts[n - 1];
        assert(a.holds(id));
        assert(a.dist_of(id) == b.dist_of(id));
        assert(a.keeps(id) == b.keeps(id));
        if !st.trace.seen.contains(id) {
            lemma_placed_inside(st.trace.seen, st.trace.pending, node(a, id));
        }
    }
}

proof fn lemma_same_met<S: SearchSpace, T: SearchSpace>(
    a: &S,
    b: &T,
    width: int,
    gather: bool,
    k: int,
    st: State,
    links: Seq<u32>,
    n: int,
)
    requires
        beam::same_space(a, b),
        is_inside(a, st.trace),
        n <= links.len(),
        forall|i: int| 0 <= i < links.len() ==> a.holds(#[trigger] links[i]),
    ensures
        met_all(a, width, gather, k, st, links, n) == met_all(b, width, gather, k, st, links, n),
        is_inside(a, met_all(a, width, gather, k, st, links, n).trace),
    decreases n,
{
    if n > 0 {
        lemma_same_met(a, b, width, gather, k, st, links, n - 1);
        let now = met_all(a, width, gather, k, st, links, n - 1);
        let id = links[n - 1];
        assert(a.holds(id));
        assert(a.dist_of(id) == b.dist_of(id));
        assert(a.keeps(id) == b.keeps(id));
        if !now.trace.seen.contains(id) {
            lemma_placed_inside(now.trace.seen, now.trace.pending, node(a, id));
        }
    }
}

proof fn lemma_same_after<S: SearchSpace, T: SearchSpace>(
    a: &S,
    b: &T,
    starts: Seq<u32>,
    beam_width: int,
    k: int,
    config: BeamSearchConfig,
    n: int,
)
    requires
        beam::same_space(a, b),
        beam::is_closed(a),
        forall|i: int| 0 <= i < starts.len() ==> a.holds(#[trigger] starts[i]),
        forall|m: int|
            0 <= m < n ==> !halts(
                a,
                width_of(beam_width, config),
                config,
                k,
                #[trigger] after(
                    a,
                    starts,
                    width_of(beam_width, config),
                    config.expanded_beam is Some,
                    k,
                    m,
                ),
            ),
    ensures
        ({
            let width = width_of(beam_width, config);
            let gather = config.expanded_beam is Some;
            let x = after(a, starts, width, gather, k, n);
            &&& x == after(b, starts, width, gather, k, n)
            &&& is_inside(a, x.trace)
            &&& halts(a, width, config, k, x) == halts(b, width, config, k, x)
        }),
    decreases n,
{
    let width = width_of(beam_width, config);
    let gather = config.expanded_beam is Some;
    let x = after(a, starts, width, gather, k, n);
    if n <= 0 {
        lemma_same_seeds(a, b, gather, starts, starts.len() as int);
    } else {
        lemma_same_after(a, b, starts, beam_width, k, config, n - 1);
        let st = after(a, starts, width, gather, k, n - 1);
        assert(!halts(a, width, config, k, st));
        let cur = st.trace.pending.last().id;
        assert(st.trace.pending[st.trace.pending.len() - 1] == st.trace.pending.last());
        assert(a.holds(cur));
        assert(a.links_of(cur) == b.links_of(cur));
        let links = a.links_of(cur);
        assert forall|i: int| 0 <= i < links.len() implies a.holds(#[trigger] links[i]) by {
            assert(a.holds(a.links_of(cur)[i]));
        }
        let next = advanced(st);
        assert forall|i: int| 0 <= i < next.trace.pending.len() implies next.trace.seen.contains(
            (#[trigger] next.trace.pending[i]).id,
        ) by {
            assert(next.trace.pending[i] == st.trace.pending[i]);
        }
        lemma_same_met(a, b, width, gather, k, next, links, links.len() as int);
    }
    if config.early_term_factor is Some {
        let factor = config.early_term_factor->0;
        assert(a.scaled(x.answers.last().dist, word::max_of(factor, word::ONE)) == b.scaled(
            x.answers.last().dist,
            word::max_of(factor, word::ONE),
        ));
    }
}

/// In two spaces with the same nodes, links, distances and filter a search takes the same
/// course.
pub proof fn same_spaces_have_one_course<S: SearchSpace, T: SearchSpace>(
    a: &S,
    b: &T,
    starts: Seq<u32>,
    beam_width: int,
    k: int,
    config: BeamSearchConfig,
    t: Trace,
    answers: Seq<Candidate>,
)
    requires
        beam::same_space(a, b),
        beam::is_closed(a),
        forall|i: int| 0 <= i < starts.len() ==> a.holds(#[trigger] starts[i]),
        is_course(a, starts, beam_width, k, config, t, answers),
    ensures
        is_course(b, starts, beam_width, k, config, t, answers),
{
    let width = width_of(beam_width, config);
    let gather = config.expanded_beam is Some;
    let n = choose|n: int| #[trigger]
        ends_after(a, starts, beam_width, k, config, n) && after(
            a,
            starts,
            width,
            gather,
            k,
            n,
        ) == (State { trace: t, answers });
    lemma_same_after(a, b, starts, beam_width, k, config, n);
    assert forall|m: int| 0 <= m < n implies !halts(
        b,
        width,
        config,
        k,
        #[trigger] after(b, starts, width, gather, k, m),
    ) by {
        assert(!halts(a, width, config, k, after(a, starts, width, gather, k, m)));
        lemma_same_after(a, b, starts, beam_width, k, config, m);
    }
    assert(ends_after(b, starts, beam_width, k, config, n));
}

/// A search is to stop at a state: nothing is pending; as many nodes were expanded as may
/// be; the beam is full, and its worst is no farther than the nearest that is pending; or,
/// where answers are gathered and a factor is given, there are as many answers as asked for,
/// and the nearest that is pending is farther than the last of them times the factor, a
/// factor below 1.0 counting as 1.0. A factor that is not finite is none.
pub open spec fn is_due<S: SearchSpace>(
    space: &S,
    width: int,
    config: BeamSearchConfig,
    k: int,
    st: State,
) -> bool {
    let nearest = st.trace.pending.last().dist;
    let last = st.answers.last().dist;
    ||| st.trace.pending.len() == 0
    ||| config.max_iterations is Some && st.trace.expanded.len() >= config.max_iterations->0
    ||| st.trace.beam.len() > 0 && st.trace.beam.len() >= width && word::at_most(
        st.trace.beam.last().dist,
        nearest,
    )
    ||| config.expanded_beam is Some && config.early_term_factor is Some && {
        let factor = config.early_term_factor->0;
        let edge = if word::less(factor, 0x3f80_0000) {
            space.scaled(last, 0x3f80_0000)
        } else {
            space.scaled(last, factor)
        };
        &&& word::abs_of(factor) < 0x7f80_0000
        &&& st.answers.len() > 0
        &&& st.answers.len() >= k
        &&& word::at_most(0, last)
        &&& word::less(edge, nearest)
    }
}

/// The search is not to stop before `n` nodes were expanded.
pub open spec fn goes_on_before<S: SearchSpace>(
    space: &S,
    starts: Seq<u32>,
    width: int,
    config: BeamSearchConfig,
    k: int,
    n: int,
) -> bool {
    forall|m: int|
        0 <= m < n ==> !is_due(
            space,
            width,
            config,
            k,
            #[trigger] after(space, starts, width, config.expanded_beam is Some, k, m),
        )
}

/// The beam that a search keeps is the one asked for, unless the configuration has another.
/// The search goes on as long as it is not to stop, and stops as soon as it is.
pub proof fn searches_stop_when_due<S: SearchSpace>(
    space: &S,
    starts: Seq<u32>,
    beam_width: int,
    width: int,
    k: int,
    config: BeamSearchConfig,
    t: Trace,
    answers: Seq<Candidate>,
)
    requires
        is_course(space, starts, beam_width, k, config, t, answers),
        config.expanded_beam is None ==> width == beam_width,
        config.expanded_beam is Some ==> width == config.expanded_beam->0,
    ensures
        is_due(space, width, config, k, (State { trace: t, answers })),
        exists|n: int|
            0 <= n && #[trigger] after(space, starts, width, config.expanded_beam is Some, k, n)
                == (State { trace: t, answers }) && goes_on_before(
                space,
                starts,
                width,
                config,
                k,
                n,
            ),
{
    let n = choose|n: int| #[trigger]
        ends_after(space, starts, beam_width, k, config, n) && after(
            space,
            starts,
            width_of(beam_width, config),
            config.expanded_beam is Some,
            k,
            n,
        ) == (State { trace: t, answers });
    let gather = config.expanded_beam is Some;
    assert(width == width_of(beam_width, config));
    assert(after(space, starts, width, gather, k, n) == (State { trace: t, answers }));
    assert forall|st: State| #[trigger] halts(space, width, config, k, st) == is_due(
        space,
        width,
        config,
        k,
        st,
    ) by {}
    assert forall|m: int| 0 <= m < n implies !is_due(
        space,
        width,
        config,
        k,
        #[trigger] after(space, starts, width, gather, k, m),
    ) by {
        assert(!halts(space, width, config, k, after(space, starts, width, gather, k, m)));
    }
    assert(halts(space, width, config, k, State { trace: t, answers }));
    assert(goes_on_before(space, starts, width, config, k, n));
}

/// One step of a search expands the nearest pending node: it is taken off what is pending,
/// and each of its links that was not seen is, in turn.
pub proof fn steps_expand_the_nearest<S: SearchSpace>(
    space: &S,
    width: int,
    gather: bool,
    k: int,
    st: State,
)
    requires
        st.trace.pending.len() > 0,
    ensures
        ({
            let node = st.trace.pending.last().id;
            let links = space.links_of(node);
            let next = stepped(space, width, gather, k, st);
            &&& next.trace.expanded == st.trace.expanded.push(node)
            &&& forall|id: u32| #[trigger]
                next.trace.seen.contains(id) <==> st.trace.seen.contains(id) || links.contains(id)
        }),
{
    let links = space.links_of(st.trace.pending.last().id);
    lemma_met_seen(space, width, gather, k, advanced(st), links, links.len() as int);
    assert(links.take(links.len() as int) =~= links);
}

proof fn lemma_met_seen<S: SearchSpace>(
    space: &S,
    width: int,
    gather: bool,
    k: int,
    st: State,
    links: Seq<u32>,
    n: int,
)
    requires
        0 <= n <= links.len(),
    ensures
        ({
            let next = met_all(space, width, gather, k, st, links, n);
            &&& next.trace.expanded == st.trace.expanded
            &&& forall|id: u32| #[trigger]
                next.trace.seen.contains(id) <==> st.trace.seen.contains(id) || links.take(
                    n,
                ).contains(id)
        }),
    decreases n,
{
    if n > 0 {
        lemma_met_seen(space, width, gather, k, st, links, n - 1);
        let before = met_all(space, width, gather, k, st, links, n - 1);
        let next = met_all(space, width, gather, k, st, links, n);
        assert(links.take(n) =~= links.take(n - 1).push(links[n - 1]));
        assert(next.trace.seen == before.trace.seen.insert(links[n - 1]) || next.trace.seen
            == before.trace.seen);
        assert forall|id: u32| #[trigger] next.trace.seen.contains(id) <==> st.trace.seen.contains(
            id,
        ) || links.take(n).contains(id) by {
            let was = links.take(n - 1);
            assert(was.push(links[n - 1]).contains(id) <==> was.contains(id) || id
                == links[n - 1]) by {
                if was.contains(id) {
                    let j = choose|j: int| 0 <= j < was.len() && was[j] == id;
                    assert(was.push(links[n - 1])[j] == id);
                }
                assert(was.push(links[n - 1])[was.len() as int] == links[n - 1]);
            }
            assert(before.trace.seen.contains(id) <==> st.trace.seen.contains(id) || was.contains(
                id,
            ));
        }
    }
}

/// An answer is put behind those that are no farther and before those that are; where there
/// are more than `k` then, the last falls away.
pub proof fn answers_take_their_places(answers: Seq<Candidate>, c: Candidate, k: int)
    requires
        0 <= k,
        answers.len() <= k,
    ensures
        exists|at: int|
            0 <= at <= answers.len() && offered(answers, c, k) == candidate::first(
                #[trigger] answers.insert(at, c),
                k,
            ) && (forall|i: int| 0 <= i < at ==> !word::less(c.dist, (#[trigger] answers[i]).dist))
                && (at < answers.len() ==> word::less(c.dist, answers[at].dist)),
{
    lemma_spot(answers, c.dist, 0);
    let at = spot(answers, c.dist, 0);
    let more = answers.insert(at, c);
    if at < k {
        if more.len() > k {
            assert(more.drop_last() =~= candidate::first(more, k));
        } else {
            assert(more =~= candidate::first(more, k));
        }
    } else {
        assert(answers =~= candidate::first(more, k));
    }
}

proof fn lemma_spot(answers: Seq<Candidate>, dist: u32, from: int)
    requires
        0 <= from <= answers.len(),
    ensures
        from <= spot(answers, dist, from) <= answers.len(),
        forall|i: int|
            from <= i < spot(answers, dist, from) ==> !word::less(
                dist,
                (#[trigger] answers[i]).dist,
            ),
        spot(answers, dist, from) < answers.len() ==> word::less(
            dist,
            answers[spot(answers, dist, from)].dist,
        ),
    decreases answers.len() - from,
{
    if from < answers.len() && !word::less(dist, answers[from].dist) {
        lemma_spot(answers, dist, from + 1);
    }
}

} // verus!
