//! Files of vectors: each vector stands behind the number of its components.
use crate::bytes;
use crate::error::DiskAnnError;
use crate::metric;
use crate::metric::Distance;
use vstd::prelude::*;

verus! {

/// The greatest byte as a binary32 number.
pub const BYTE_SPAN: u32 = 0x437f_0000;

/// The vectors from `p` on, each as the bytes of its components, which take `width`
/// bytes. Nothing when a vector is cut short. Fewer than four bytes at the end are no
/// vector.
pub open spec fn rows_from(s: Seq<u8>, p: int, width: int) -> Option<Seq<Seq<u8>>>
    decreases s.len() - p,
{
    if p < 0 || p + 4 > s.len() || width < 0 {
        Some(Seq::empty())
    } else {
        let size = bytes::word_at(s, p) * width;
        if p + 4 + size > s.len() {
            None
        } else {
            proof {
                assert(size >= 0) by (nonlinear_arith)
                    requires
                        size == bytes::word_at(s, p) * width,
                        width >= 0,
                ;
            }
            match rows_from(s, p + 4 + size, width) {
                Some(rest) => Some(seq![s.subrange(p + 4, p + 4 + size)] + rest),
                None => None,
            }
        }
    }
}

/// The vectors as a file of them holds them.
pub open spec fn file_of(rows: Seq<Seq<u8>>, width: int) -> Seq<u8>
    decreases rows.len(),
{
    if rows.len() == 0 {
        Seq::empty()
    } else {
        bytes::le32((rows[0].len() as int / width) as u32) + rows[0] + file_of(rows.skip(1), width)
    }
}

/// Components of four bytes.
pub open spec fn words_of(row: Seq<u8>) -> Seq<u32> {
    bytes::words_at(row, 0, row.len() as int / 4)
}

/// Patterns as signed numbers.
pub open spec fn signed(v: Seq<u32>) -> Seq<i32> {
    v.map_values(|w: u32| w as i32)
}

/// Signed numbers as patterns.
pub open spec fn patterns(v: Seq<i32>) -> Seq<u32> {
    v.map_values(|w: i32| w as u32)
}

fn read_rows(s: &[u8], width: usize) -> (r: Option<Vec<Vec<u8>>>)
    requires
        width == 1 || width == 4,
    ensures
        match r {
            Some(rows) => rows_from(s@, 0, width as int) == Some(rows@.map_values(|v: Vec<u8>| v@)),
            None => rows_from(s@, 0, width as int) is None,
        },
{
    let len: usize = s.len();
    let mut rows: Vec<Vec<u8>> = Vec::new();
    let mut p: usize = 0;
    let ghost got: Seq<Seq<u8>> = rows@.map_values(|v: Vec<u8>| v@);
    assert(got =~= Seq::empty());
    proof {
        match rows_from(s@, 0, width as int) {
            Some(all) => {
                assert(got + all =~= all);
            },
            None => {},
        }
    }
    while len - p >= 4
        invariant
            p <= len == s@.len(),
            width == 1 || width == 4,
            rows_from(s@, 0, width as int) == match rows_from(s@, p as int, width as int) {
                Some(rest) => Some(rows@.map_values(|v: Vec<u8>| v@) + rest),
                None => None,
            },
        decreases len - p,
    {
        let dim: u32 = bytes::read_u32(s, p);
        let size: u64 = dim as u64 * width as u64;
        if size > (len - p - 4) as u64 {
            return None;
        }
        let part = vstd::slice::slice_subrange(s, p + 4, p + 4 + size as usize);
        let mut row: Vec<u8> = Vec::new();
        bytes::push_slice(&mut row, part);
        let ghost was = rows@.map_values(|v: Vec<u8>| v@);
        let ghost bytes_of_row = s@.subrange(p + 4, p + 4 + size);
        assert(row@ =~= bytes_of_row);
        rows.push(row);
        proof {
            let now = rows@.map_values(|v: Vec<u8>| v@);
            assert(now =~= was.push(bytes_of_row));
            match rows_from(s@, p + 4 + size, width as int) {
                Some(rest) => {
                    assert(was + (seq![bytes_of_row] + rest) =~= now + rest);
                },
                None => {},
            }
        }
        p = p + 4 + size as usize;
    }
    proof {
        let now = rows@.map_values(|v: Vec<u8>| v@);
        assert(now + Seq::<Seq<u8>>::empty() =~= now);
    }
    Some(rows)
}

/// Reads a file of binary32 vectors.
pub fn read_fvecs(s: &[u8]) -> (r: Result<Vec<Vec<u32>>, DiskAnnError>)
    ensures
        match rows_from(s@, 0, 4) {
            Some(rows) => r is Ok && metric::rows(r->Ok_0@) == rows.map_values(
                |row: Seq<u8>| words_of(row),
            ),
            None => r is Err && r->Err_0 == DiskAnnError::UnexpectedEof,
        },
{
    match read_rows(s, 4) {
        Some(rows) => {
            let ghost all = rows@.map_values(|v: Vec<u8>| v@);
            let mut r: Vec<Vec<u32>> = Vec::new();
            let n: usize = rows.len();
            let mut i: usize = 0;
            while i < n
                invariant
                    i <= n == rows@.len() == all.len(),
                    all == rows@.map_values(|v: Vec<u8>| v@),
                    r@.len() == i,
                    forall|j: int| 0 <= j < i ==> (#[trigger] r@[j])@ == words_of(all[j]),
                decreases n - i,
            {
                let row = &rows[i];
                let words = bytes::read_words(row.as_slice(), 0, row.len() / 4);
                r.push(words);
                i = i + 1;
            }
            assert(metric::rows(r@) =~= all.map_values(|row: Seq<u8>| words_of(row)));
            Ok(r)
        },
        None => Err(DiskAnnError::UnexpectedEof),
    }
}

/// Writes binary32 vectors as a file holds them.
pub fn write_fvecs(vectors: &Vec<Vec<u32>>) -> (r: Vec<u8>)
    ensures
        r@ == file_of(metric::rows(vectors@).map_values(|v: Seq<u32>| bytes::word_bytes(v)), 4),
{
    let ghost all = metric::rows(vectors@).map_values(|v: Seq<u32>| bytes::word_bytes(v));
    let mut r: Vec<u8> = Vec::new();
    let n: usize = vectors.len();
    let mut i: usize = 0;
    assert(r@ + file_of(all.skip(0), 4) =~= file_of(all, 4)) by {
        assert(all.skip(0) =~= all);
    }
    while i < n
        invariant
            i <= n == vectors@.len() == all.len(),
            all == metric::rows(vectors@).map_values(|v: Seq<u32>| bytes::word_bytes(v)),
            r@ + file_of(all.skip(i as int), 4) == file_of(all, 4),
        decreases n - i,
    {
        let ghost was = r@;
        let v = &vectors[i];
        bytes::push_u32(&mut r, v.len() as u32);
        bytes::push_words(&mut r, v.as_slice());
        proof {
            let row = all[i as int];
            bytes::lemma_word_bytes_len(v@);
            let rest = all.skip(i as int);
            assert(rest[0] == row);
            assert(rest.skip(1) =~= all.skip(i + 1));
            assert(row.len() as int / 4 == v@.len());
            assert(r@ + file_of(all.skip(i + 1), 4) =~= was + file_of(rest, 4));
        }
        i = i + 1;
    }
    proof {
        assert(all.skip(n as int) =~= Seq::empty());
        assert(r@ + file_of(all.skip(n as int), 4) =~= r@);
    }
    r
}

/// Reads a file of signed 32-bit vectors.
pub fn read_ivecs(s: &[u8]) -> (r: Result<Vec<Vec<i32>>, DiskAnnError>)
    ensures
        match rows_from(s@, 0, 4) {
            Some(rows) => r is Ok && r->Ok_0@.map_values(|v: Vec<i32>| v@) == rows.map_values(
                |row: Seq<u8>| signed(words_of(row)),
            ),
            None => r is Err && r->Err_0 == DiskAnnError::UnexpectedEof,
        },
{
    match read_rows(s, 4) {
        Some(rows) => {
            let ghost all = rows@.map_values(|v: Vec<u8>| v@);
            let mut r: Vec<Vec<i32>> = Vec::new();
            let n: usize = rows.len();
            let mut i: usize = 0;
            while i < n
                invariant
                    i <= n == rows@.len() == all.len(),
                    all == rows@.map_values(|v: Vec<u8>| v@),
                    r@.len() == i,
                    forall|j: int| 0 <= j < i ==> (#[trigger] r@[j])@ == signed(words_of(all[j])),
                decreases n - i,
            {
                let row = &rows[i];
                let words = bytes::read_words(row.as_slice(), 0, row.len() / 4);
                r.push(to_signed(&words));
                i = i + 1;
            }
            assert(r@.map_values(|v: Vec<i32>| v@) =~= all.map_values(
                |row: Seq<u8>| signed(words_of(row)),
            ));
            Ok(r)
        },
        None => Err(DiskAnnError::UnexpectedEof),
    }
}

fn to_signed(words: &Vec<u32>) -> (r: Vec<i32>)
    ensures
        r@ == signed(words@),
{
    let mut r: Vec<i32> = Vec::new();
    let n: usize = words.len();
    let mut i: usize = 0;
    while i < n
        invariant
            i <= n == words@.len(),
            r@.len() == i,
            forall|j: int| 0 <= j < i ==> #[trigger] r@[j] == words@[j] as i32,
        decreases n - i,
    {
        r.push(words[i] as i32);
        i = i + 1;
    }
    assert(r@ =~= signed(words@));
    r
}

fn to_patterns(v: &Vec<i32>) -> (r: Vec<u32>)
    ensures
        r@ == patterns(v@),
{
    let mut r: Vec<u32> = Vec::new();
    let n: usize = v.len();
    let mut i: usize = 0;
    while i < n
        invariant
            i <= n == v@.len(),
            r@.len() == i,
            forall|j: int| 0 <= j < i ==> #[trigger] r@[j] == v@[j] as u32,
        decreases n - i,
    {
        r.push(v[i] as u32);
        i = i + 1;
    }
    assert(r@ =~= patterns(v@));
    r
}

/// Writes signed 32-bit vectors as a file holds them.
pub fn write_ivecs(vectors: &Vec<Vec<i32>>) -> (r: Vec<u8>)
    ensures
        r@ == file_of(
            vectors@.map_values(|v: Vec<i32>| v@).map_values(
                |v: Seq<i32>| bytes::word_bytes(patterns(v)),
            ),
            4,
        ),
{
    let mut words: Vec<Vec<u32>> = Vec::new();
    let n: usize = vectors.len();
    let mut i: usize = 0;
    while i < n
        invariant
            i <= n == vectors@.len(),
            words@.len() == i,
            forall|j: int| 0 <= j < i ==> (#[trigger] words@[j])@ == patterns(vectors@[j]@),
        decreases n - i,
    {
        words.push(to_patterns(&vectors[i]));
        i = i + 1;
    }
    assert(metric::rows(words@).map_values(|v: Seq<u32>| bytes::word_bytes(v)) =~= vectors@.map_values(
        |v: Vec<i32>| v@,
    ).map_values(|v: Seq<i32>| bytes::word_bytes(patterns(v))));
    write_fvecs(&words)
}

/// Reads a file of byte vectors.
pub fn read_bvecs(s: &[u8]) -> (r: Result<Vec<Vec<u8>>, DiskAnnError>)
    ensures
        match rows_from(s@, 0, 1) {
            Some(rows) => r is Ok && r->Ok_0@.map_values(|v: Vec<u8>| v@) == rows,
            None => r is Err && r->Err_0 == DiskAnnError::UnexpectedEof,
        },
{
    match read_rows(s, 1) {
        Some(rows) => Ok(rows),
        None => Err(DiskAnnError::UnexpectedEof),
    }
}

/// Bytes as binary32 numbers from zero to one.
pub open spec fn scaled<D: Distance>(dist: D, row: Seq<u8>) -> Seq<u32> {
    row.map_values(|b: u8| dist.quotient_spec(dist.count_spec(b as usize), BYTE_SPAN))
}

/// Reads a file of byte vectors as binary32 vectors, with components from zero to one.
pub fn read_bvecs_as_f32<D: Distance>(s: &[u8], dist: D) -> (r: Result<Vec<Vec<u32>>, DiskAnnError>)
    ensures
        match rows_from(s@, 0, 1) {
            Some(rows) => r is Ok && metric::rows(r->Ok_0@) == rows.map_values(
                |row: Seq<u8>| scaled(dist, row),
            ),
            None => r is Err && r->Err_0 == DiskAnnError::UnexpectedEof,
        },
{
    match read_rows(s, 1) {
        Some(rows) => {
            let ghost all = rows@.map_values(|v: Vec<u8>| v@);
            let mut r: Vec<Vec<u32>> = Vec::new();
            let n: usize = rows.len();
            let mut i: usize = 0;
            while i < n
                invariant
                    i <= n == rows@.len() == all.len(),
                    all == rows@.map_values(|v: Vec<u8>| v@),
                    r@.len() == i,
                    forall|j: int| 0 <= j < i ==> (#[trigger] r@[j])@ == scaled(dist, all[j]),
                decreases n - i,
            {
                let row = &rows[i];
                let len: usize = row.len();
                let mut v: Vec<u32> = Vec::new();
                let mut c: usize = 0;
                while c < len
                    invariant
                        c <= len == row@.len(),
                        v@.len() == c,
                        forall|j: int|
                            0 <= j < c ==> #[trigger] v@[j] == dist.quotient_spec(
                                dist.count_spec(row@[j] as usize),
                                BYTE_SPAN,
                            ),
                    decreases len - c,
                {
                    v.push(dist.quotient(dist.count(row[c] as usize), BYTE_SPAN));
                    c = c + 1;
                }
                assert(v@ =~= scaled(dist, all[i as int]));
                r.push(v);
                i = i + 1;
            }
            assert(metric::rows(r@) =~= all.map_values(|row: Seq<u8>| scaled(dist, row)));
            Ok(r)
        },
        None => Err(DiskAnnError::UnexpectedEof),
    }
}

/// Writes byte vectors as a file holds them.
pub fn write_bvecs(vectors: &Vec<Vec<u8>>) -> (r: Vec<u8>)
    ensures
        r@ == file_of(vectors@.map_values(|v: Vec<u8>| v@), 1),
{
    let ghost all = vectors@.map_values(|v: Vec<u8>| v@);
    let mut r: Vec<u8> = Vec::new();
    let n: usize = vectors.len();
    let mut i: usize = 0;
    assert(r@ + file_of(all.skip(0), 1) =~= file_of(all, 1)) by {
        assert(all.skip(0) =~= all);
    }
    while i < n
        invariant
            i <= n == vectors@.len() == all.len(),
            all == vectors@.map_values(|v: Vec<u8>| v@),
            r@ + file_of(all.skip(i as int), 1) == file_of(all, 1),
        decreases n - i,
    {
        let ghost was = r@;
        let v = &vectors[i];
        bytes::push_u32(&mut r, v.len() as u32);
        bytes::push_slice(&mut r, v.as_slice());
        proof {
            let rest = all.skip(i as int);
            assert(rest[0] == v@);
            assert(rest.skip(1) =~= all.skip(i + 1));
            assert(r@ + file_of(all.skip(i + 1), 1) =~= was + file_of(rest, 1));
        }
        i = i + 1;
    }
    proof {
        assert(all.skip(n as int) =~= Seq::empty());
        assert(r@ + file_of(all.skip(n as int), 1) =~= r@);
    }
    r
}

/// Reading a file that was written gives the vectors back, provided that the number of
/// their components fits the four bytes for it.
pub proof fn file_reads_back(rows: Seq<Seq<u8>>, width: int)
    requires
        width == 1 || width == 4,
        forall|i: int|
            0 <= i < rows.len() ==> (#[trigger] rows[i]).len() as int % width == 0
                && rows[i].len() as int / width <= u32::MAX,
    ensures
        rows_from(file_of(rows, width), 0, width) == Some(rows),
{
    lemma_rows_at(Seq::empty(), rows, width);
    assert(Seq::<u8>::empty() + file_of(rows, width) =~= file_of(rows, width));
}

proof fn lemma_rows_at(before: Seq<u8>, rows: Seq<Seq<u8>>, width: int)
    requires
        width == 1 || width == 4,
        forall|i: int|
            0 <= i < rows.len() ==> (#[trigger] rows[i]).len() as int % width == 0
                && rows[i].len() as int / width <= u32::MAX,
    ensures
        rows_from(before + file_of(rows, width), before.len() as int, width) == Some(rows),
    decreases rows.len(),
{
    let s = before + file_of(rows, width);
    let p = before.len() as int;
    if rows.len() == 0 {
        assert(rows =~= Seq::empty());
    } else {
        let row = rows[0];
        let dim = (row.len() as int / width) as u32;
        let head = bytes::le32(dim);
        bytes::lemma_le32(dim);
        assert(s.subrange(p, p + 4) =~= head);
        assert(bytes::word_at(s, p) == dim);
        assert(dim * width == row.len());
        assert(s.subrange(p + 4, p + 4 + row.len()) =~= row);
        let next = before + head + row;
        let rest = rows.skip(1);
        assert(s =~= next + file_of(rest, width));
        assert forall|i: int| 0 <= i < rest.len() implies (#[trigger] rest[i]).len() as int % width
            == 0 && rest[i].len() as int / width <= u32::MAX by {
            assert(rest[i] == rows[i + 1]);
        }
        lemma_rows_at(next, rest, width);
        assert(next.len() == p + 4 + row.len());
        assert(seq![row] + rest =~= rows);
    }
}

} // verus!
