//! Little-endian integers in byte sequences.
use vstd::prelude::*;

verus! {

/// The `n` low bytes of `v`, least significant first.
pub open spec fn le_bytes(v: nat, n: nat) -> Seq<u8>
    decreases n,
{
    if n == 0 {
        Seq::empty()
    } else {
        seq![(v % 256) as u8] + le_bytes(v / 256, (n - 1) as nat)
    }
}

/// The number that bytes spell, least significant first.
pub open spec fn le_value(s: Seq<u8>) -> nat
    decreases s.len(),
{
    if s.len() == 0 {
        0
    } else {
        s[0] as nat + 256 * le_value(s.drop_first())
    }
}

/// 256 to the power `n`.
pub open spec fn pow256(n: nat) -> nat
    decreases n,
{
    if n == 0 {
        1
    } else {
        256 * pow256((n - 1) as nat)
    }
}

pub proof fn lemma_le_bytes_len(v: nat, n: nat)
    ensures
        le_bytes(v, n).len() == n,
    decreases n,
{
    if n > 0 {
        lemma_le_bytes_len(v / 256, (n - 1) as nat);
    }
}

pub proof fn lemma_pow256()
    ensures
        pow256(1) == 0x100,
        pow256(2) == 0x1_0000,
        pow256(4) == 0x1_0000_0000,
        pow256(8) == 0x1_0000_0000_0000_0000,
{
    reveal_with_fuel(pow256, 9);
}

/// Reading back what was written gives the number, when it fits.
pub proof fn lemma_le_round_trip(v: nat, n: nat)
    requires
        v < pow256(n),
    ensures
        le_bytes(v, n).len() == n,
        le_value(le_bytes(v, n)) == v,
    decreases n,
{
    if n > 0 {
        lemma_le_round_trip(v / 256, (n - 1) as nat);
        let rest = le_bytes(v / 256, (n - 1) as nat);
        assert(le_bytes(v, n).drop_first() =~= rest);
    }
}

/// A byte sequence is the writing of the number it spells.
pub proof fn lemma_le_value_bytes(s: Seq<u8>)
    ensures
        le_value(s) < pow256(s.len()),
        le_bytes(le_value(s), s.len()) == s,
    decreases s.len(),
{
    if s.len() > 0 {
        let rest = s.drop_first();
        lemma_le_value_bytes(rest);
        let v = le_value(s);
        assert(v / 256 == le_value(rest) && v % 256 == s[0]);
        assert(seq![s[0]] + rest =~= s);
    } else {
        assert(le_bytes(0, 0) =~= s);
    }
}

pub open spec fn le32(v: u32) -> Seq<u8> {
    le_bytes(v as nat, 4)
}

pub open spec fn le64(v: u64) -> Seq<u8> {
    le_bytes(v as nat, 8)
}

pub proof fn lemma_le32(v: u32)
    ensures
        le32(v).len() == 4,
        le_value(le32(v)) == v,
{
    lemma_pow256();
    lemma_le_round_trip(v as nat, 4);
}

pub proof fn lemma_le64(v: u64)
    ensures
        le64(v).len() == 8,
        le_value(le64(v)) == v,
{
    lemma_pow256();
    lemma_le_round_trip(v as nat, 8);
}

fn push_le(out: &mut Vec<u8>, value: u64, n: usize)
    ensures
        final(out)@ == old(out)@ + le_bytes(value as nat, n as nat),
{
    let mut v: u64 = value;
    let mut i: usize = 0;
    let ghost start = out@;
    assert(start + le_bytes(value as nat, n as nat) =~= out@ + le_bytes(v as nat, (n - i) as nat));
    while i < n
        invariant
            i <= n,
            start + le_bytes(value as nat, n as nat) == out@ + le_bytes(
                v as nat,
                (n - i) as nat,
            ),
        decreases n - i,
    {
        let ghost before = out@;
        out.push((v % 256) as u8);
        assert(before + le_bytes(v as nat, (n - i) as nat) =~= out@ + le_bytes(
            (v / 256) as nat,
            (n - i - 1) as nat,
        ));
        v = v / 256;
        i = i + 1;
    }
    assert(out@ + le_bytes(v as nat, 0) =~= out@);
}

/// Appends the four bytes of `value`.
pub fn push_u32(out: &mut Vec<u8>, value: u32)
    ensures
        final(out)@ == old(out)@ + le32(value),
{
    push_le(out, value as u64, 4);
}

/// Appends the eight bytes of `value`.
pub fn push_u64(out: &mut Vec<u8>, value: u64)
    ensures
        final(out)@ == old(out)@ + le64(value),
{
    push_le(out, value, 8);
}

fn read_le(s: &[u8], pos: usize, n: usize) -> (r: u64)
    requires
        n <= 8,
        pos + n <= s@.len(),
    ensures
        r == le_value(s@.subrange(pos as int, pos + n)),
{
    let len: usize = s.len();
    let mut i: usize = n;
    let mut v: u64 = 0;
    proof {
        lemma_pow256();
        lemma_pow256_monotone(n as nat, 8);
    }
    assert(s@.subrange(pos + n as int, pos + n) =~= Seq::empty());
    while i > 0
        invariant
            i <= n <= 8,
            pos + n <= len == s@.len(),
            v == le_value(s@.subrange(pos + i as int, pos + n)),
            pow256(8) == 0x1_0000_0000_0000_0000,
        decreases i,
    {
        i = i - 1;
        let ghost part = s@.subrange(pos + i as int, pos + n);
        proof {
            assert(part.drop_first() =~= s@.subrange(pos + i + 1, pos + n));
            lemma_le_value_bytes(part);
            lemma_pow256_monotone(part.len(), 8);
        }
        v = s[pos + i] as u64 + 256 * v;
    }
    v
}

pub proof fn lemma_pow256_monotone(a: nat, b: nat)
    requires
        a <= b,
    ensures
        0 < pow256(a) <= pow256(b),
    decreases b,
{
    if a < b {
        lemma_pow256_monotone(a, (b - 1) as nat);
    } else if a > 0 {
        lemma_pow256_monotone((a - 1) as nat, (b - 1) as nat);
    }
}

/// The 32-bit number at `pos`.
pub fn read_u32(s: &[u8], pos: usize) -> (r: u32)
    requires
        pos + 4 <= s@.len(),
    ensures
        r == le_value(s@.subrange(pos as int, pos + 4)),
        le32(r) == s@.subrange(pos as int, pos + 4),
{
    let v = read_le(s, pos, 4);
    proof {
        lemma_pow256();
        lemma_le_value_bytes(s@.subrange(pos as int, pos + 4));
    }
    v as u32
}

/// The 64-bit number at `pos`.
pub fn read_u64(s: &[u8], pos: usize) -> (r: u64)
    requires
        pos + 8 <= s@.len(),
    ensures
        r == le_value(s@.subrange(pos as int, pos + 8)),
        le64(r) == s@.subrange(pos as int, pos + 8),
{
    let v = read_le(s, pos, 8);
    proof {
        lemma_le_value_bytes(s@.subrange(pos as int, pos + 8));
    }
    v
}

/// The 32-bit number that the four bytes at `p` spell.
pub open spec fn word_at(s: Seq<u8>, p: int) -> u32 {
    le_value(s.subrange(p, p + 4)) as u32
}

/// The `n` 32-bit numbers from `p` on.
pub open spec fn words_at(s: Seq<u8>, p: int, n: int) -> Seq<u32> {
    Seq::new(n as nat, |c: int| word_at(s, p + 4 * c))
}

/// The bytes of 32-bit numbers, one after the other.
pub open spec fn word_bytes(ws: Seq<u32>) -> Seq<u8>
    decreases ws.len(),
{
    if ws.len() == 0 {
        Seq::empty()
    } else {
        word_bytes(ws.drop_last()) + le32(ws.last())
    }
}

pub proof fn lemma_word_bytes_len(ws: Seq<u32>)
    ensures
        word_bytes(ws).len() == 4 * ws.len(),
    decreases ws.len(),
{
    if ws.len() > 0 {
        lemma_word_bytes_len(ws.drop_last());
        lemma_le32(ws.last());
    }
}

/// Numbers that were written are read back, wherever they stand.
pub proof fn lemma_words_of_word_bytes(a: Seq<u8>, ws: Seq<u32>, b: Seq<u8>)
    ensures
        words_at(a + word_bytes(ws) + b, a.len() as int, ws.len() as int) == ws,
    decreases ws.len(),
{
    let s = a + word_bytes(ws) + b;
    lemma_word_bytes_len(ws);
    if ws.len() > 0 {
        let rest = ws.drop_last();
        let last = le32(ws.last());
        lemma_word_bytes_len(rest);
        lemma_le32(ws.last());
        assert(s =~= a + word_bytes(rest) + (last + b));
        lemma_words_of_word_bytes(a, rest, last + b);
        let got = words_at(s, a.len() as int, ws.len() as int);
        assert forall|c: int| 0 <= c < ws.len() implies got[c] == ws[c] by {
            if c < rest.len() {
                assert(words_at(s, a.len() as int, rest.len() as int)[c] == rest[c]);
            } else {
                assert(s.subrange(a.len() + 4 * c, a.len() + 4 * c + 4) =~= last);
            }
        }
        assert(got =~= ws);
    } else {
        assert(words_at(s, a.len() as int, 0) =~= ws);
    }
}

/// Numbers that were read are the numbers whose bytes stand there.
pub proof fn lemma_word_bytes_of_words(s: Seq<u8>, p: int, n: int)
    requires
        0 <= p,
        0 <= n,
        p + 4 * n <= s.len(),
    ensures
        word_bytes(words_at(s, p, n)) == s.subrange(p, p + 4 * n),
    decreases n,
{
    let ws = words_at(s, p, n);
    if n > 0 {
        lemma_word_bytes_of_words(s, p, n - 1);
        assert(ws.drop_last() =~= words_at(s, p, n - 1));
        let part = s.subrange(p + 4 * (n - 1), p + 4 * n);
        assert(part =~= s.subrange(p + 4 * (n - 1), p + 4 * (n - 1) + 4));
        lemma_le_value_bytes(part);
        lemma_pow256();
        assert(le32(ws.last()) == part);
        assert(s.subrange(p, p + 4 * n) =~= s.subrange(p, p + 4 * (n - 1)) + part);
    } else {
        assert(s.subrange(p, p + 4 * n) =~= Seq::empty());
    }
}

/// What was written stays readable when more is appended.
pub proof fn lemma_words_prefix(a: Seq<u8>, b: Seq<u8>, p: int, n: int)
    requires
        0 <= p,
        0 <= n,
        p + 4 * n <= a.len() <= b.len(),
        b.take(a.len() as int) == a,
    ensures
        words_at(b, p, n) == words_at(a, p, n),
{
    let x = words_at(a, p, n);
    let y = words_at(b, p, n);
    assert forall|c: int| 0 <= c < n implies x[c] == y[c] by {
        assert(a.subrange(p + 4 * c, p + 4 * c + 4) =~= b.subrange(p + 4 * c, p + 4 * c + 4));
    }
    assert(x =~= y);
}

/// Appends the bytes of 32-bit numbers.
pub fn push_words(out: &mut Vec<u8>, ws: &[u32])
    ensures
        final(out)@ == old(out)@ + word_bytes(ws@),
{
    let ghost start = out@;
    let mut i: usize = 0;
    assert(ws@.take(0) =~= Seq::empty());
    assert(out@ =~= start + word_bytes(ws@.take(0)));
    while i < ws.len()
        invariant
            i <= ws@.len(),
            out@ == start + word_bytes(ws@.take(i as int)),
        decreases ws@.len() - i,
    {
        let ghost before = out@;
        push_u32(out, ws[i]);
        proof {
            let more = ws@.take(i + 1);
            assert(more.drop_last() =~= ws@.take(i as int));
            assert(out@ =~= start + word_bytes(more));
        }
        i = i + 1;
    }
    assert(ws@.take(ws@.len() as int) =~= ws@);
}

/// The `n` 32-bit numbers from `pos` on.
pub fn read_words(s: &[u8], pos: usize, n: usize) -> (r: Vec<u32>)
    requires
        pos + 4 * n <= s@.len(),
    ensures
        r@ == words_at(s@, pos as int, n as int),
{
    let len: usize = s.len();
    let mut r: Vec<u32> = Vec::new();
    let mut i: usize = 0;
    while i < n
        invariant
            i <= n,
            pos + 4 * n <= len == s@.len(),
            r@ == words_at(s@, pos as int, i as int),
        decreases n - i,
    {
        r.push(read_u32(s, pos + 4 * i));
        i = i + 1;
        assert(r@ =~= words_at(s@, pos as int, i as int));
    }
    r
}

/// Appends bytes.
pub fn push_slice(out: &mut Vec<u8>, part: &[u8])
    ensures
        final(out)@ == old(out)@ + part@,
{
    let ghost start = out@;
    let mut i: usize = 0;
    assert(out@ =~= start + part@.take(0));
    while i < part.len()
        invariant
            i <= part@.len(),
            out@ == start + part@.take(i as int),
        decreases part@.len() - i,
    {
        out.push(part[i]);
        i = i + 1;
        assert(out@ =~= start + part@.take(i as int));
    }
    assert(part@.take(part@.len() as int) =~= part@);
}

/// The 16-bit numbers that bytes spell, two by two.
pub open spec fn halves_of(s: Seq<u8>) -> Seq<u16> {
    Seq::new(s.len() / 2, |i: int| (s[2 * i] + 256 * s[2 * i + 1]) as u16)
}

/// The bytes of 16-bit numbers, one after the other.
pub open spec fn half_bytes(hs: Seq<u16>) -> Seq<u8> {
    Seq::new(
        2 * hs.len(),
        |j: int|
            if j % 2 == 0 {
                (hs[j / 2] % 256) as u8
            } else {
                (hs[j / 2] / 256) as u8
            },
    )
}

/// Numbers that were written are read back.
pub proof fn halves_round_trip(hs: Seq<u16>)
    ensures
        halves_of(half_bytes(hs)) == hs,
{
    let got = halves_of(half_bytes(hs));
    assert forall|i: int| 0 <= i < hs.len() implies got[i] == hs[i] by {
        let b = half_bytes(hs);
        assert(b[2 * i] == hs[i] % 256);
        assert(b[2 * i + 1] == hs[i] / 256);
    }
    assert(got =~= hs);
}

/// The bytes of 16-bit numbers.
pub fn write_halves(hs: &Vec<u16>) -> (r: Vec<u8>)
    ensures
        r@ == half_bytes(hs@),
{
    let mut r: Vec<u8> = Vec::new();
    let mut i: usize = 0;
    while i < hs.len()
        invariant
            i <= hs@.len(),
            r@.len() == 2 * i,
            forall|j: int| 0 <= j < r@.len() ==> #[trigger] r@[j] == half_bytes(hs@)[j],
        decreases hs@.len() - i,
    {
        r.push((hs[i] % 256) as u8);
        r.push((hs[i] / 256) as u8);
        i = i + 1;
    }
    assert(r@ =~= half_bytes(hs@));
    r
}

/// The 16-bit numbers that bytes spell.
pub fn read_halves(s: &[u8]) -> (r: Vec<u16>)
    ensures
        r@ == halves_of(s@),
{
    let len: usize = s.len();
    let n: usize = len / 2;
    let mut r: Vec<u16> = Vec::new();
    let mut i: usize = 0;
    while i < n
        invariant
            i <= n,
            n == len / 2,
            len == s@.len(),
            r@.len() == i,
            forall|j: int| 0 <= j < i ==> #[trigger] r@[j] == halves_of(s@)[j],
        decreases n - i,
    {
        r.push(s[2 * i] as u16 + 256 * s[2 * i + 1] as u16);
        i = i + 1;
    }
    assert(r@ =~= halves_of(s@));
    r
}

/// The 64-bit number that the eight bytes at `p` spell.
pub open spec fn long_at(s: Seq<u8>, p: int) -> u64 {
    le_value(s.subrange(p, p + 8)) as u64
}

/// The `n` 64-bit numbers from `p` on.
pub open spec fn longs_at(s: Seq<u8>, p: int, n: int) -> Seq<u64> {
    Seq::new(n as nat, |c: int| long_at(s, p + 8 * c))
}

/// The bytes of 64-bit numbers, one after the other.
pub open spec fn long_bytes(ws: Seq<u64>) -> Seq<u8>
    decreases ws.len(),
{
    if ws.len() == 0 {
        Seq::empty()
    } else {
        long_bytes(ws.drop_last()) + le64(ws.last())
    }
}

pub proof fn lemma_long_bytes_len(ws: Seq<u64>)
    ensures
        long_bytes(ws).len() == 8 * ws.len(),
    decreases ws.len(),
{
    if ws.len() > 0 {
        lemma_long_bytes_len(ws.drop_last());
        lemma_le64(ws.last());
    }
}

/// Numbers that were written are read back, wherever they stand.
pub proof fn lemma_longs_of_long_bytes(a: Seq<u8>, ws: Seq<u64>, b: Seq<u8>)
    ensures
        longs_at(a + long_bytes(ws) + b, a.len() as int, ws.len() as int) == ws,
    decreases ws.len(),
{
    let s = a + long_bytes(ws) + b;
    lemma_long_bytes_len(ws);
    if ws.len() > 0 {
        let rest = ws.drop_last();
        let last = le64(ws.last());
        lemma_long_bytes_len(rest);
        lemma_le64(ws.last());
        assert(s =~= a + long_bytes(rest) + (last + b));
        lemma_longs_of_long_bytes(a, rest, last + b);
        let got = longs_at(s, a.len() as int, ws.len() as int);
        assert forall|c: int| 0 <= c < ws.len() implies got[c] == ws[c] by {
            if c < rest.len() {
                assert(longs_at(s, a.len() as int, rest.len() as int)[c] == rest[c]);
            } else {
                assert(s.subrange(a.len() + 8 * c, a.len() + 8 * c + 8) =~= last);
            }
        }
        assert(got =~= ws);
    } else {
        assert(longs_at(s, a.len() as int, 0) =~= ws);
    }
}

/// Appends the bytes of 64-bit numbers.
pub fn push_longs(out: &mut Vec<u8>, ws: &[u64])
    ensures
        final(out)@ == old(out)@ + long_bytes(ws@),
{
    let ghost start = out@;
    let mut i: usize = 0;
    assert(ws@.take(0) =~= Seq::empty());
    assert(out@ =~= start + long_bytes(ws@.take(0)));
    while i < ws.len()
        invariant
            i <= ws@.len(),
            out@ == start + long_bytes(ws@.take(i as int)),
        decreases ws@.len() - i,
    {
        push_u64(out, ws[i]);
        proof {
            let more = ws@.take(i + 1);
            assert(more.drop_last() =~= ws@.take(i as int));
            assert(out@ =~= start + long_bytes(more));
        }
        i = i + 1;
    }
    assert(ws@.take(ws@.len() as int) =~= ws@);
}

/// The `n` 64-bit numbers from `pos` on.
pub fn read_longs(s: &[u8], pos: usize, n: usize) -> (r: Vec<u64>)
    requires
        pos + 8 * n <= s@.len(),
    ensures
        r@ == longs_at(s@, pos as int, n as int),
{
    let len: usize = s.len();
    let mut r: Vec<u64> = Vec::new();
    let mut i: usize = 0;
    while i < n
        invariant
            i <= n,
            pos + 8 * n <= len == s@.len(),
            r@ == longs_at(s@, pos as int, i as int),
        decreases n - i,
    {
        r.push(read_u64(s, pos + 8 * i));
        i = i + 1;
        assert(r@ =~= longs_at(s@, pos as int, i as int));
    }
    r
}

} // verus!
