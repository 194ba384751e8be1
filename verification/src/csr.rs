//! The edges of a graph turned round.
use vstd::prelude::*;

verus! {

/// One copy of `u` for each of the first `j` entries of `row` that is `v`.
pub open spec fn hits(row: Seq<u32>, u: u32, v: int, j: int) -> Seq<u32>
    decreases j,
{
    if j <= 0 {
        Seq::empty()
    } else if row[j - 1] == v {
        hits(row, u, v, j - 1).push(u)
    } else {
        hits(row, u, v, j - 1)
    }
}

/// The sources of the edges into `v` from the first `upto` rows, in order. Row `pos`
/// holds the edges that leave node `order[pos]`.
pub open spec fn incoming(order: Seq<usize>, rows: Seq<Vec<u32>>, v: int, upto: int) -> Seq<u32>
    decreases upto,
{
    if upto <= 0 {
        Seq::empty()
    } else {
        incoming(order, rows, v, upto - 1) + hits(
            rows[upto - 1]@,
            order[upto - 1] as u32,
            v,
            rows[upto - 1]@.len() as int,
        )
    }
}

/// How many edges the first `upto` rows hold.
pub open spec fn edges(rows: Seq<Vec<u32>>, upto: int) -> int
    decreases upto,
{
    if upto <= 0 {
        0
    } else {
        edges(rows, upto - 1) + rows[upto - 1]@.len()
    }
}

/// How many of the first `j` entries of `row` are below `i`.
spec fn row_spread(row: Seq<u32>, u: u32, i: int, j: int) -> int
    decreases i,
{
    if i <= 0 {
        0
    } else {
        row_spread(row, u, i - 1, j) + hits(row, u, i - 1, j).len()
    }
}

spec fn spread(order: Seq<usize>, rows: Seq<Vec<u32>>, i: int, upto: int) -> int
    decreases i,
{
    if i <= 0 {
        0
    } else {
        spread(order, rows, i - 1, upto) + incoming(order, rows, i - 1, upto).len()
    }
}

proof fn lemma_row_spread_step(row: Seq<u32>, u: u32, i: int, j: int)
    requires
        0 <= i,
        0 < j <= row.len(),
    ensures
        row_spread(row, u, i, j) == row_spread(row, u, i, j - 1) + if row[j - 1] < i {
            1int
        } else {
            0
        },
    decreases i,
{
    if i > 0 {
        lemma_row_spread_step(row, u, i - 1, j);
    }
}

proof fn lemma_row_spread(row: Seq<u32>, u: u32, i: int, j: int)
    requires
        0 <= i,
        0 <= j <= row.len(),
    ensures
        0 <= row_spread(row, u, i, j) <= j,
    decreases j,
{
    if j > 0 {
        lemma_row_spread(row, u, i, j - 1);
        lemma_row_spread_step(row, u, i, j);
    } else {
        lemma_row_spread_zero(row, u, i);
    }
}

proof fn lemma_row_spread_zero(row: Seq<u32>, u: u32, i: int)
    requires
        0 <= i,
    ensures
        row_spread(row, u, i, 0) == 0,
    decreases i,
{
    if i > 0 {
        lemma_row_spread_zero(row, u, i - 1);
    }
}

proof fn lemma_spread_step(order: Seq<usize>, rows: Seq<Vec<u32>>, i: int, upto: int)
    requires
        0 <= i,
        0 < upto <= rows.len(),
    ensures
        spread(order, rows, i, upto) == spread(order, rows, i, upto - 1) + row_spread(
            rows[upto - 1]@,
            order[upto - 1] as u32,
            i,
            rows[upto - 1]@.len() as int,
        ),
    decreases i,
{
    if i > 0 {
        lemma_spread_step(order, rows, i - 1, upto);
    }
}

proof fn lemma_spread(order: Seq<usize>, rows: Seq<Vec<u32>>, i: int, upto: int)
    requires
        0 <= i,
        0 <= upto <= rows.len(),
    ensures
        0 <= spread(order, rows, i, upto) <= edges(rows, upto),
    decreases upto + i,
{
    if upto > 0 {
        lemma_spread(order, rows, i, upto - 1);
        lemma_spread_step(order, rows, i, upto);
        lemma_row_spread(
            rows[upto - 1]@,
            order[upto - 1] as u32,
            i,
            rows[upto - 1]@.len() as int,
        );
    } else if i > 0 {
        lemma_spread(order, rows, i - 1, upto);
    }
}

proof fn lemma_incoming_len(order: Seq<usize>, rows: Seq<Vec<u32>>, v: int, upto: int)
    requires
        0 <= v,
        0 <= upto <= rows.len(),
    ensures
        incoming(order, rows, v, upto).len() <= edges(rows, upto),
{
    lemma_spread(order, rows, v + 1, upto);
    lemma_spread(order, rows, v, upto);
}

proof fn lemma_hits_grow(row: Seq<u32>, u: u32, v: int, j: int, k: int)
    requires
        0 <= j <= k,
    ensures
        hits(row, u, v, j).len() <= hits(row, u, v, k).len(),
    decreases k,
{
    if j < k {
        lemma_hits_grow(row, u, v, j, k - 1);
    }
}

proof fn lemma_incoming_grow(order: Seq<usize>, rows: Seq<Vec<u32>>, v: int, a: int, b: int)
    requires
        0 <= a <= b,
    ensures
        incoming(order, rows, v, a).len() <= incoming(order, rows, v, b).len(),
    decreases b,
{
    if a < b {
        lemma_incoming_grow(order, rows, v, a, b - 1);
    }
}

/// The part of the list of `v` that is written after `pos` rows and `j` entries.
spec fn so_far(order: Seq<usize>, rows: Seq<Vec<u32>>, v: int, pos: int, j: int) -> Seq<u32> {
    incoming(order, rows, v, pos) + hits(rows[pos]@, order[pos] as u32, v, j)
}

proof fn lemma_so_far(order: Seq<usize>, rows: Seq<Vec<u32>>, v: int, pos: int, j: int)
    requires
        0 <= v,
        0 <= pos < rows.len(),
        0 <= j < rows[pos]@.len(),
    ensures
        so_far(order, rows, v, pos, j + 1) == if rows[pos]@[j] == v {
            so_far(order, rows, v, pos, j).push(order[pos] as u32)
        } else {
            so_far(order, rows, v, pos, j)
        },
        so_far(order, rows, v, pos, j + 1).len() <= incoming(
            order,
            rows,
            v,
            rows.len() as int,
        ).len() <= edges(rows, rows.len() as int),
{
    assert(so_far(order, rows, v, pos, j + 1) =~= if rows[pos]@[j] == v {
        so_far(order, rows, v, pos, j).push(order[pos] as u32)
    } else {
        so_far(order, rows, v, pos, j)
    });
    lemma_hits_grow(rows[pos]@, order[pos] as u32, v, j + 1, rows[pos]@.len() as int);
    lemma_incoming_grow(order, rows, v, pos + 1, rows.len() as int);
    lemma_incoming_len(order, rows, v, rows.len() as int);
}

/// Lists the edges by their targets: the sources of the edges into `v` stand in the
/// first vector between the offsets that the second gives at `v` and `v + 1`.
#[verifier::rlimit(40)]
pub fn build_incoming_csr(order: &Vec<usize>, new_graph: &Vec<Vec<u32>>, n: usize) -> (r: (
    Vec<u32>,
    Vec<usize>,
))
    requires
        n < usize::MAX,
        order@.len() == new_graph@.len(),
        forall|p: int, j: int|
            0 <= p < new_graph@.len() && 0 <= j < new_graph@[p]@.len() ==> #[trigger] new_graph@[p]@[j]
                < n,
        edges(new_graph@, new_graph@.len() as int) <= usize::MAX,
    ensures
        r.1@.len() == n + 1,
        r.1@[0] == 0,
        r.1@[n as int] == r.0@.len(),
        forall|v: int| 0 <= v < n ==> #[trigger] r.1@[v] <= r.1@[v + 1] <= r.0@.len(),
        forall|v: int|
            0 <= v < n ==> r.0@.subrange(#[trigger] r.1@[v] as int, r.1@[v + 1] as int) == incoming(
                order@,
                new_graph@,
                v,
                new_graph@.len() as int,
            ),
{
    let ghost rows = new_graph@;
    let ghost all = rows.len() as int;
    let mut indeg: Vec<usize> = Vec::new();
    let mut i: usize = 0;
    while i < n
        invariant
            i <= n,
            indeg@.len() == i,
            forall|v: int| 0 <= v < i ==> #[trigger] indeg@[v] == 0,
        decreases n - i,
    {
        indeg.push(0);
        i = i + 1;
    }
    let mut pos: usize = 0;
    while pos < order.len()
        invariant
            rows == new_graph@,
            all == rows.len(),
            pos <= all == order@.len(),
            indeg@.len() == n,
            forall|p: int, j: int|
                0 <= p < rows.len() && 0 <= j < rows[p]@.len() ==> #[trigger] rows[p]@[j] < n,
            edges(rows, all) <= usize::MAX,
            forall|v: int|
                0 <= v < n ==> #[trigger] indeg@[v] == incoming(order@, rows, v, pos as int).len(),
        decreases all - pos,
    {
        let mut j: usize = 0;
        while j < new_graph[pos].len()
            invariant
                rows == new_graph@,
                all == rows.len(),
                pos < all,
                j <= rows[pos as int]@.len(),
                indeg@.len() == n,
                forall|p: int, j: int|
                    0 <= p < rows.len() && 0 <= j < rows[p]@.len() ==> #[trigger] rows[p]@[j] < n,
                edges(rows, all) <= usize::MAX,
                forall|v: int|
                    0 <= v < n ==> #[trigger] indeg@[v] == so_far(
                        order@,
                        rows,
                        v,
                        pos as int,
                        j as int,
                    ).len(),
            decreases rows[pos as int]@.len() - j,
        {
            let v: usize = new_graph[pos][j] as usize;
            proof {
                assert(rows[pos as int]@[j as int] < n);
                assert forall|w: int| 0 <= w < n implies so_far(
                    order@,
                    rows,
                    w,
                    pos as int,
                    j + 1,
                ).len() == #[trigger] indeg@[w] + if w == v {
                    1int
                } else {
                    0
                } by {
                    lemma_so_far(order@, rows, w, pos as int, j as int);
                }
                lemma_so_far(order@, rows, v as int, pos as int, j as int);
            }
            indeg.set(v, indeg[v] + 1);
            j = j + 1;
        }
        pos = pos + 1;
    }
    let mut off: Vec<usize> = Vec::new();
    off.push(0);
    let mut i: usize = 0;
    while i < n
        invariant
            rows == new_graph@,
            all == rows.len(),
            i <= n,
            indeg@.len() == n,
            edges(rows, all) <= usize::MAX,
            off@.len() == i + 1,
            forall|v: int|
                0 <= v < n ==> #[trigger] indeg@[v] == incoming(order@, rows, v, all).len(),
            forall|v: int| 0 <= v <= i ==> #[trigger] off@[v] == spread(order@, rows, v, all),
        decreases n - i,
    {
        proof {
            lemma_spread(order@, rows, i + 1, all);
            assert(indeg@[i as int] == incoming(order@, rows, i as int, all).len());
        }
        off.push(off[i] + indeg[i]);
        i = i + 1;
    }
    let mut cur: Vec<usize> = off.clone();
    let total: usize = off[n];
    let mut flat: Vec<u32> = Vec::new();
    let mut i: usize = 0;
    while i < total
        invariant
            i <= total,
            flat@.len() == i,
        decreases total - i,
    {
        flat.push(0);
        i = i + 1;
    }
    proof {
        assert forall|v: int, w: int| 0 <= v <= w <= n implies off@[v] <= off@[w] by {
            lemma_spread_monotone(order@, rows, v, w, all);
            assert(off@[v] == spread(order@, rows, v, all));
            assert(off@[w] == spread(order@, rows, w, all));
        }
        assert forall|v: int| 0 <= v < n implies #[trigger] off@[v] + incoming(order@, rows, v, all).len()
            == off@[v + 1] by {
            assert(off@[v + 1] == spread(order@, rows, v + 1, all));
        }
    }
    let mut pos: usize = 0;
    assert forall|v: int| 0 <= v < n implies flat@.subrange(
        #[trigger] off@[v] as int,
        off@[v] as int,
    ) =~= incoming(order@, rows, v, 0) by {}
    while pos < order.len()
        invariant
            rows == new_graph@,
            all == rows.len(),
            pos <= all == order@.len(),
            cur@.len() == n + 1,
            off@.len() == n + 1,
            flat@.len() == total == off@[n as int],
            forall|p: int, j: int|
                0 <= p < rows.len() && 0 <= j < rows[p]@.len() ==> #[trigger] rows[p]@[j] < n,
            forall|v: int, w: int|
                0 <= v <= w <= n ==> #[trigger] off@[v] <= #[trigger] off@[w],
            forall|v: int|
                0 <= v < n ==> #[trigger] off@[v] + incoming(order@, rows, v, all).len() == off@[v
                    + 1],
            forall|v: int|
                0 <= v < n ==> #[trigger] cur@[v] == off@[v] + incoming(
                    order@,
                    rows,
                    v,
                    pos as int,
                ).len(),
            forall|v: int|
                0 <= v < n ==> flat@.subrange(off@[v] as int, #[trigger] cur@[v] as int)
                    == incoming(order@, rows, v, pos as int),
        decreases all - pos,
    {
        let u: u32 = order[pos] as u32;
        let mut j: usize = 0;
        assert forall|v: int| 0 <= v < n implies flat@.subrange(
            off@[v] as int,
            #[trigger] cur@[v] as int,
        ) == so_far(order@, rows, v, pos as int, 0) by {
            assert(so_far(order@, rows, v, pos as int, 0) =~= incoming(order@, rows, v, pos as int));
        }
        while j < new_graph[pos].len()
            invariant
                rows == new_graph@,
                all == rows.len(),
                pos < all,
                u == order@[pos as int] as u32,
                j <= rows[pos as int]@.len(),
                cur@.len() == n + 1,
                off@.len() == n + 1,
                flat@.len() == total == off@[n as int],
                forall|p: int, j: int|
                    0 <= p < rows.len() && 0 <= j < rows[p]@.len() ==> #[trigger] rows[p]@[j] < n,
                forall|v: int, w: int|
                    0 <= v <= w <= n ==> #[trigger] off@[v] <= #[trigger] off@[w],
                forall|v: int|
                    0 <= v < n ==> #[trigger] off@[v] + incoming(order@, rows, v, all).len()
                        == off@[v + 1],
                forall|v: int|
                    0 <= v < n ==> #[trigger] cur@[v] == off@[v] + so_far(
                        order@,
                        rows,
                        v,
                        pos as int,
                        j as int,
                    ).len(),
                forall|v: int|
                    0 <= v < n ==> flat@.subrange(off@[v] as int, #[trigger] cur@[v] as int)
                        == so_far(order@, rows, v, pos as int, j as int),
            decreases rows[pos as int]@.len() - j,
        {
            let v: usize = new_graph[pos][j] as usize;
            assert(rows[pos as int]@[j as int] < n);
            proof {
                lemma_so_far(order@, rows, v as int, pos as int, j as int);
                assert(off@[v as int] + incoming(order@, rows, v as int, all).len() == off@[v + 1]);
                assert(off@[v + 1] <= off@[n as int]);
            }
            let idx: usize = cur[v];
            let ghost old_flat = flat@;
            let ghost old_cur = cur@;
            flat.set(idx, u);
            cur.set(v, idx + 1);
            proof {
                assert forall|w: int| 0 <= w < n implies flat@.subrange(
                    off@[w] as int,
                    #[trigger] cur@[w] as int,
                ) == so_far(order@, rows, w, pos as int, j + 1) && cur@[w] == off@[w] + so_far(
                    order@,
                    rows,
                    w,
                    pos as int,
                    j + 1,
                ).len() by {
                    lemma_so_far(order@, rows, w, pos as int, j as int);
                    let part = old_flat.subrange(off@[w] as int, old_cur[w] as int);
                    assert(part == so_far(order@, rows, w, pos as int, j as int));
                    if w == v {
                        assert(flat@.subrange(off@[w] as int, cur@[w] as int) =~= part.push(u));
                    } else {
                        assert(old_cur[w] <= off@[w + 1]) by {
                            assert(off@[w] + incoming(order@, rows, w, all).len() == off@[w + 1]);
                        }
                        if w < v {
                            assert(off@[w + 1] <= off@[v as int]);
                        } else {
                            assert(off@[v + 1] <= off@[w]);
                        }
                        assert(flat@.subrange(off@[w] as int, cur@[w] as int) =~= part);
                    }
                }
            }
            j = j + 1;
        }
        pos = pos + 1;
    }
    proof {
        assert forall|v: int| 0 <= v < n implies flat@.subrange(
            #[trigger] off@[v] as int,
            off@[v + 1] as int,
        ) == incoming(order@, rows, v, all) by {
            assert(cur@[v] == off@[v] + incoming(order@, rows, v, all).len());
        }
        assert forall|v: int| 0 <= v < n implies #[trigger] off@[v] <= off@[v + 1] <= flat@.len() by {
            assert(off@[v + 1] <= off@[n as int]);
        }
    }
    (flat, off)
}

proof fn lemma_spread_monotone(
    order: Seq<usize>,
    rows: Seq<Vec<u32>>,
    v: int,
    w: int,
    upto: int,
)
    requires
        0 <= v <= w,
    ensures
        spread(order, rows, v, upto) <= spread(order, rows, w, upto),
    decreases w,
{
    if v < w {
        lemma_spread_monotone(order, rows, v, w - 1, upto);
    }
}

proof fn lemma_hits_contains(row: Seq<u32>, u: u32, v: int, j: int, x: u32)
    requires
        0 <= j <= row.len(),
    ensures
        hits(row, u, v, j).contains(x) <==> x == u && exists|i: int|
            0 <= i < j && (#[trigger] row[i]) == v,
    decreases j,
{
    if j > 0 {
        lemma_hits_contains(row, u, v, j - 1, x);
        let a = hits(row, u, v, j - 1);
        let b = hits(row, u, v, j);
        if a.contains(x) {
            let i = choose|i: int| 0 <= i < a.len() && a[i] == x;
            assert(b[i] == x);
        }
        if row[j - 1] == v {
            assert(b[a.len() as int] == u);
        }
        if b.contains(x) && !a.contains(x) {
            let i = choose|i: int| 0 <= i < b.len() && b[i] == x;
            if i < a.len() {
                assert(a[i] == x);
            }
            assert(row[j - 1] == v);
        }
    }
}

/// The list of `v` holds the nodes whose rows hold `v`.
pub proof fn lemma_incoming_contains(
    order: Seq<usize>,
    rows: Seq<Vec<u32>>,
    v: int,
    upto: int,
    x: u32,
)
    requires
        0 <= upto <= rows.len(),
    ensures
        incoming(order, rows, v, upto).contains(x) <==> exists|p: int, i: int|
            0 <= p < upto && 0 <= i < rows[p]@.len() && order[p] as u32 == x
                && #[trigger] rows[p]@[i] == v,
    decreases upto,
{
    if upto > 0 {
        lemma_incoming_contains(order, rows, v, upto - 1, x);
        let p = upto - 1;
        let a = incoming(order, rows, v, p);
        let h = hits(rows[p]@, order[p] as u32, v, rows[p]@.len() as int);
        lemma_hits_contains(rows[p]@, order[p] as u32, v, rows[p]@.len() as int, x);
        let b = incoming(order, rows, v, upto);
        assert(b == a + h);
        if a.contains(x) {
            let i = choose|i: int| 0 <= i < a.len() && a[i] == x;
            assert(b[i] == x);
        }
        if h.contains(x) {
            let i = choose|i: int| 0 <= i < h.len() && h[i] == x;
            assert(b[a.len() + i] == x);
            let m = choose|m: int| 0 <= m < rows[p]@.len() && (#[trigger] rows[p]@[m]) == v;
            assert(rows[p]@[m] == v && order[p] as u32 == x);
        }
        if b.contains(x) {
            let i = choose|i: int| 0 <= i < b.len() && b[i] == x;
            if i < a.len() {
                assert(a[i] == x);
            } else {
                assert(h[i - a.len()] == x);
            }
        }
        if exists|q: int, i: int|
            0 <= q < upto && 0 <= i < rows[q]@.len() && order[q] as u32 == x
                && #[trigger] rows[q]@[i] == v {
            let (q, i) = choose|q: int, i: int|
                0 <= q < upto && 0 <= i < rows[q]@.len() && order[q] as u32 == x
                    && #[trigger] rows[q]@[i] == v;
            if q < p {
                assert(a.contains(x));
            } else {
                assert(h.contains(x));
            }
        }
    }
}

/// Rows of at most `most` entries hold at most that many edges each.
pub proof fn lemma_edges_bound(rows: Seq<Vec<u32>>, upto: int, most: int)
    requires
        0 <= upto <= rows.len(),
        forall|p: int| 0 <= p < rows.len() ==> (#[trigger] rows[p])@.len() <= most,
    ensures
        0 <= edges(rows, upto) <= upto * most,
    decreases upto,
{
    if upto > 0 {
        lemma_edges_bound(rows, upto - 1, most);
        assert(rows[upto - 1]@.len() <= most);
        assert((upto - 1) * most + most == upto * most) by (nonlinear_arith);
    } else {
        assert(upto * most == 0) by (nonlinear_arith)
            requires
                upto == 0,
        ;
    }
}

} // verus!
