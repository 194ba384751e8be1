//! The pseudo-random rotation of a vector: signs and Hadamard transforms in turn.
use crate::metric::Distance;
use vstd::prelude::*;

verus! {

/// A power of two.
pub open spec fn is_pow2(n: int) -> bool
    decreases n,
{
    n == 1 || (n > 1 && n % 2 == 0 && is_pow2(n / 2))
}

/// One stage of the transform: entries `h` apart become their sum and their difference.
pub open spec fn stage<D: Distance>(dist: D, v: Seq<u32>, h: int) -> Seq<u32> {
    Seq::new(
        v.len(),
        |p: int|
            if p % (2 * h) < h {
                dist.sum_spec(v[p], v[p + h])
            } else {
                dist.difference_spec(v[p - h], v[p])
            },
    )
}

/// The stages from distance `h` on, each at twice the distance of the one before.
pub open spec fn stages<D: Distance>(dist: D, v: Seq<u32>, h: int) -> Seq<u32>
    decreases
            if h < v.len() {
                v.len() - h
            } else {
                0
            },
{
    if h <= 0 || h >= v.len() {
        v
    } else {
        stages(dist, stage(dist, v, h), 2 * h)
    }
}

/// The fast Hadamard transform.
pub open spec fn transformed<D: Distance>(dist: D, v: Seq<u32>) -> Seq<u32> {
    stages(dist, v, 1)
}

proof fn lemma_block(q: int, h: int, r: int)
    requires
        0 <= q,
        0 < h,
        0 <= r < 2 * h,
    ensures
        (q * (2 * h) + r) % (2 * h) == r,
        0 <= q * (2 * h),
{
    vstd::arithmetic::div_mod::lemma_fundamental_div_mod_converse(
        q * (2 * h) + r,
        2 * h,
        q,
        r,
    );
    assert(0 <= q * (2 * h)) by (nonlinear_arith)
        requires
            0 <= q,
            0 < h,
    ;
}

fn run_stage<D: Distance>(dist: D, v: &mut Vec<u32>, h: usize, blocks: usize)
    requires
        h > 0,
        old(v)@.len() == blocks * (2 * h),
    ensures
        final(v)@ == stage(dist, old(v)@, h as int),
{
    let ghost start = v@;
    let len: usize = v.len();
    let mut q: usize = 0;
    let mut i: usize = 0;
    assert(0 * (2 * h) == 0) by (nonlinear_arith);
    while q < blocks
        invariant
            q <= blocks,
            h > 0,
            i == q * (2 * h),
            len == blocks * (2 * h) == start.len(),
            v@.len() == len,
            forall|p: int| 0 <= p < i ==> #[trigger] v@[p] == stage(dist, start, h as int)[p],
            forall|p: int| i <= p < len ==> #[trigger] v@[p] == start[p],
        decreases blocks - q,
    {
        assert(q * (2 * h) + 2 * h == (q + 1) * (2 * h) && (q + 1) * (2 * h) <= blocks * (2 * h))
            by (nonlinear_arith)
            requires
                q < blocks,
                h > 0,
        ;
        let mut j: usize = 0;
        while j < h
            invariant
                j <= h,
                h > 0,
                i == q * (2 * h),
                i + 2 * h <= len == start.len(),
                v@.len() == len,
                forall|p: int| 0 <= p < i ==> #[trigger] v@[p] == stage(dist, start, h as int)[p],
                forall|p: int|
                    i <= p < i + j ==> #[trigger] v@[p] == stage(dist, start, h as int)[p],
                forall|p: int|
                    i + h <= p < i + h + j ==> #[trigger] v@[p] == stage(
                        dist,
                        start,
                        h as int,
                    )[p],
                forall|p: int| i + j <= p < i + h ==> #[trigger] v@[p] == start[p],
                forall|p: int| i + h + j <= p < len ==> #[trigger] v@[p] == start[p],
            decreases h - j,
        {
            let x: u32 = v[i + j];
            let y: u32 = v[i + j + h];
            proof {
                lemma_block(q as int, h as int, j as int);
                lemma_block(q as int, h as int, j + h);
            }
            v.set(i + j, dist.sum(x, y));
            v.set(i + j + h, dist.difference(x, y));
            j = j + 1;
        }
        q = q + 1;
        i = i + 2 * h;
    }
    assert(v@ =~= stage(dist, start, h as int));
}

/// Transforms a vector whose length is a power of two.
pub fn fht<D: Distance>(dist: D, v: &mut Vec<u32>)
    requires
        is_pow2(old(v)@.len() as int),
    ensures
        final(v)@ == transformed(dist, old(v)@),
        final(v)@.len() == old(v)@.len(),
{
    let ghost start = v@;
    let len: usize = v.len();
    let mut h: usize = 1;
    let mut parts: usize = len;
    while h < len
        invariant
            v@.len() == len == start.len(),
            0 < h,
            parts > 0,
            h * parts == len,
            is_pow2(parts as int),
            stages(dist, start, 1) == stages(dist, v@, h as int),
        decreases parts,
    {
        assert(parts > 1) by (nonlinear_arith)
            requires
                h * parts == len,
                h < len,
                parts > 0,
        ;
        let blocks: usize = parts / 2;
        assert(2 * blocks == parts);
        assert(blocks * (2 * h) == h * (2 * blocks)) by (nonlinear_arith);
        let ghost before = v@;
        run_stage(dist, v, h, blocks);
        assert(2 * h <= len) by (nonlinear_arith)
            requires
                blocks * (2 * h) == len,
                blocks >= 1,
        ;
        assert((2 * h) * blocks == len) by (nonlinear_arith)
            requires
                blocks * (2 * h) == len,
        ;
        h = 2 * h;
        parts = blocks;
    }
    proof {
        lemma_stages_len(dist, start, 1);
    }
}

pub(crate) proof fn lemma_stages_len<D: Distance>(dist: D, v: Seq<u32>, h: int)
    ensures
        stages(dist, v, h).len() == v.len(),
    decreases
            if h < v.len() {
                v.len() - h
            } else {
                0
            },
{
    if 0 < h < v.len() {
        lemma_stages_len(dist, stage(dist, v, h), 2 * h);
    }
}

/// Row `r` of the signs.
pub open spec fn sign_row(signs: Seq<u32>, r: int, width: int) -> Seq<u32> {
    signs.subrange(r * width, r * width + width)
}

/// Each entry times its sign.
pub open spec fn signed<D: Distance>(dist: D, v: Seq<u32>, row: Seq<u32>) -> Seq<u32> {
    Seq::new(v.len(), |i: int| dist.product_spec(v[i], row[i]))
}

/// The vector after the first `rounds` rounds of signs and transform.
pub open spec fn rotated<D: Distance>(dist: D, v: Seq<u32>, signs: Seq<u32>, rounds: int) -> Seq<
    u32,
>
    decreases rounds,
{
    if rounds <= 0 {
        v
    } else {
        let before = rotated(dist, v, signs, rounds - 1);
        transformed(dist, signed(dist, before, sign_row(signs, rounds - 1, v.len() as int)))
    }
}

/// The vector after the rounds from the last down to number `rounds` were taken back.
pub open spec fn unrotated<D: Distance>(
    dist: D,
    v: Seq<u32>,
    signs: Seq<u32>,
    rounds: int,
    total: int,
) -> Seq<u32>
    decreases total - rounds,
{
    if rounds >= total {
        v
    } else {
        let before = unrotated(dist, v, signs, rounds + 1, total);
        signed(dist, transformed(dist, before), sign_row(signs, rounds, v.len() as int))
    }
}

fn apply_signs<D: Distance>(dist: D, v: &mut Vec<u32>, signs: &Vec<u32>, from: usize)
    requires
        from + old(v)@.len() <= signs@.len(),
    ensures
        final(v)@ == signed(
            dist,
            old(v)@,
            signs@.subrange(from as int, from + old(v)@.len()),
        ),
{
    let ghost start = v@;
    let n: usize = v.len();
    let total: usize = signs.len();
    let mut i: usize = 0;
    while i < n
        invariant
            i <= n,
            n == start.len() == v@.len(),
            from + n <= total == signs@.len(),
            forall|p: int|
                0 <= p < i ==> #[trigger] v@[p] == dist.product_spec(start[p], signs@[from + p]),
            forall|p: int| i <= p < n ==> #[trigger] v@[p] == start[p],
        decreases n - i,
    {
        let x: u32 = v[i];
        v.set(i, dist.product(x, signs[from + i]));
        i = i + 1;
    }
    assert(v@ =~= signed(dist, start, signs@.subrange(from as int, from + n)));
}

pub proof fn lemma_rotated_len<D: Distance>(dist: D, v: Seq<u32>, signs: Seq<u32>, rounds: int)
    ensures
        rotated(dist, v, signs, rounds).len() == v.len(),
    decreases rounds,
{
    if rounds > 0 {
        lemma_rotated_len(dist, v, signs, rounds - 1);
        let before = rotated(dist, v, signs, rounds - 1);
        lemma_stages_len(
            dist,
            signed(dist, before, sign_row(signs, rounds - 1, v.len() as int)),
            1,
        );
    }
}

/// Rotates a vector by all rows of signs.
pub fn rotate<D: Distance>(dist: D, v: &mut Vec<u32>, signs: &Vec<u32>, rounds: usize)
    requires
        is_pow2(old(v)@.len() as int),
        signs@.len() == rounds * old(v)@.len(),
    ensures
        final(v)@ == rotated(dist, old(v)@, signs@, rounds as int),
        final(v)@.len() == old(v)@.len(),
{
    let ghost start = v@;
    let n: usize = v.len();
    let total: usize = signs.len();
    let mut r: usize = 0;
    let mut from: usize = 0;
    assert(0 * n == 0) by (nonlinear_arith);
    while r < rounds
        invariant
            r <= rounds,
            n == start.len(),
            is_pow2(n as int),
            v@.len() == n,
            from == r * n,
            total == signs@.len() == rounds * n,
            v@ == rotated(dist, start, signs@, r as int),
        decreases rounds - r,
    {
        assert(r * n + n == (r + 1) * n && (r + 1) * n <= rounds * n) by (nonlinear_arith)
            requires
                r < rounds,
        ;
        apply_signs(dist, v, signs, from);
        fht(dist, v);
        r = r + 1;
        from = from + n;
    }
}

/// Takes a rotation back, up to a factor that the signs hold.
pub fn unrotate<D: Distance>(dist: D, v: &mut Vec<u32>, signs: &Vec<u32>, rounds: usize)
    requires
        is_pow2(old(v)@.len() as int),
        signs@.len() == rounds * old(v)@.len(),
    ensures
        final(v)@ == unrotated(dist, old(v)@, signs@, 0, rounds as int),
        final(v)@.len() == old(v)@.len(),
{
    let ghost start = v@;
    let n: usize = v.len();
    let total: usize = signs.len();
    let mut r: usize = rounds;
    let mut from: usize = total;
    while r > 0
        invariant
            r <= rounds,
            n == start.len(),
            is_pow2(n as int),
            v@.len() == n,
            from == r * n,
            total == signs@.len() == rounds * n,
            v@ == unrotated(dist, start, signs@, r as int, rounds as int),
        decreases r,
    {
        assert((r - 1) * n + n == r * n && r * n <= rounds * n && 0 <= (r - 1) * n)
            by (nonlinear_arith)
            requires
                0 < r <= rounds,
        ;
        fht(dist, v);
        from = from - n;
        apply_signs(dist, v, signs, from);
        r = r - 1;
    }
}

} // verus!
