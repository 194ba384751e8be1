//! Postings: lists of coded vectors in blocks of one size.
use crate::bytes;
use vstd::prelude::*;

verus! {

/// A coded vector in a posting.
pub struct Entry {
    pub id: u64,
    pub code: Seq<u8>,
}

/// How many entries a block holds.
pub open spec fn count_in(block: Seq<u8>) -> int {
    bytes::word_at(block, 0) as int
}

/// Where entry `i` stands in a block.
pub open spec fn place(i: int, code_size: int) -> int {
    4 + i * (8 + code_size)
}

/// Entry `i` of a block.
pub open spec fn entry_in(block: Seq<u8>, i: int, code_size: int) -> Entry {
    let p = place(i, code_size);
    Entry {
        id: bytes::long_at(block, p),
        code: block.subrange(p + 8, p + 8 + code_size),
    }
}

/// The entries of a block: their number, and then each id with its code.
pub open spec fn entries_in(block: Seq<u8>, code_size: int) -> Seq<Entry> {
    Seq::new(count_in(block) as nat, |i: int| entry_in(block, i, code_size))
}

/// Bytes of a block.
pub open spec fn block_size(capacity: int, code_size: int) -> int {
    place(capacity, code_size)
}

/// A block that was never written.
pub open spec fn blank_block(size: int) -> Seq<u8> {
    Seq::new(size as nat, |i: int| 0u8)
}

/// `part` in place of what stood at `p`.
pub open spec fn patched(s: Seq<u8>, p: int, part: Seq<u8>) -> Seq<u8> {
    Seq::new(
        s.len(),
        |i: int|
            if p <= i < p + part.len() {
                part[i - p]
            } else {
                s[i]
            },
    )
}

fn write_at(data: &mut Vec<u8>, p: usize, part: &[u8])
    requires
        p + part@.len() <= old(data)@.len(),
    ensures
        final(data)@ == patched(old(data)@, p as int, part@),
{
    let ghost before = data@;
    let len: usize = data.len();
    let mut i: usize = 0;
    assert(data@ =~= patched(before, p as int, part@.take(0)));
    while i < part.len()
        invariant
            i <= part@.len(),
            len == before.len(),
            p + part@.len() <= len,
            data@ == patched(before, p as int, part@.take(i as int)),
        decreases part@.len() - i,
    {
        data.set(p + i, part[i]);
        i = i + 1;
        assert(data@ =~= patched(before, p as int, part@.take(i as int)));
    }
    assert(part@.take(part@.len() as int) =~= part@);
}

proof fn lemma_places(i: int, j: int, code_size: int)
    requires
        0 <= i < j,
        0 <= code_size,
    ensures
        4 <= place(i, code_size),
        place(i, code_size) + 8 + code_size == place(i + 1, code_size),
        place(i + 1, code_size) <= place(j, code_size),
{
    let e = 8 + code_size;
    assert(0 <= i * e && i * e + e == (i + 1) * e && (i + 1) * e <= j * e) by (nonlinear_arith)
        requires
            0 <= i < j,
            0 <= e,
    ;
}

proof fn lemma_blocks(b: int, n: int, size: int)
    requires
        0 <= b < n,
        0 <= size,
    ensures
        0 <= b * size,
        b * size + size == (b + 1) * size,
        (b + 1) * size <= n * size,
{
    assert(0 <= b * size && b * size + size == (b + 1) * size && (b + 1) * size <= n * size)
        by (nonlinear_arith)
        requires
            0 <= b < n,
            0 <= size,
    ;
}

/// Writing an entry behind the others of a block, and then their number, adds it.
proof fn lemma_appended(block: Seq<u8>, capacity: int, code_size: int, id: u64, code: Seq<u8>)
    requires
        0 <= code_size,
        code.len() == code_size,
        block.len() == block_size(capacity, code_size),
        count_in(block) < capacity,
        count_in(block) < u32::MAX,
    ensures
        ({
            let n = count_in(block);
            let after = patched(
                patched(block, place(n, code_size), bytes::le64(id) + code),
                0,
                bytes::le32((n + 1) as u32),
            );
            &&& count_in(after) == n + 1
            &&& entries_in(after, code_size) == entries_in(block, code_size).push(
                Entry { id, code },
            )
        }),
{
    let n = count_in(block);
    let part = bytes::le64(id) + code;
    let mid = patched(block, place(n, code_size), part);
    let after = patched(mid, 0, bytes::le32((n + 1) as u32));
    bytes::lemma_le64(id);
    bytes::lemma_le32((n + 1) as u32);
    lemma_places(n, capacity, code_size);
    assert(after.subrange(0, 4) =~= bytes::le32((n + 1) as u32));
    let want = entries_in(block, code_size).push(Entry { id, code });
    let got = entries_in(after, code_size);
    assert forall|i: int| 0 <= i < got.len() implies got[i] == want[i] by {
        let p = place(i, code_size);
        if i < n {
            lemma_places(i, n, code_size);
            assert(after.subrange(p, p + 8) =~= block.subrange(p, p + 8));
            assert(after.subrange(p + 8, p + 8 + code_size) =~= block.subrange(
                p + 8,
                p + 8 + code_size,
            ));
        } else {
            assert(after.subrange(p, p + 8) =~= bytes::le64(id));
            assert(after.subrange(p + 8, p + 8 + code_size) =~= code);
        }
    }
    assert(got =~= want);
}

/// Blocks, one after the other.
pub struct Blocks {
    pub data: Vec<u8>,
    /// How many blocks there are.
    pub count: usize,
    /// Entries that a block has room for.
    pub capacity: usize,
    /// Bytes of a code.
    pub code_size: usize,
}

/// A block has room for the number of its entries.
proof fn lemma_block_head(capacity: int, code_size: int)
    requires
        0 <= capacity,
        0 <= code_size,
    ensures
        block_size(capacity, code_size) >= 4,
{
    assert(capacity * (8 + code_size) >= 0) by (nonlinear_arith)
        requires
            0 <= capacity,
            0 <= code_size,
    ;
}

impl Blocks {
    /// Bytes of a block.
    pub open spec fn size(&self) -> int {
        block_size(self.capacity as int, self.code_size as int)
    }

    /// The bytes of a block.
    pub open spec fn block(&self, b: int) -> Seq<u8> {
        self.data@.subrange(b * self.size(), b * self.size() + self.size())
    }

    /// The entries of a block.
    pub open spec fn posting(&self, b: int) -> Seq<Entry> {
        entries_in(self.block(b), self.code_size as int)
    }

    pub open spec fn wf(&self) -> bool {
        &&& 0 < self.capacity < u32::MAX
        &&& self.data@.len() == self.count * self.size()
        &&& self.data@.len() <= usize::MAX
        &&& self.size() <= usize::MAX
        &&& forall|b: int|
            0 <= b < self.count ==> (#[trigger] self.posting(b)).len() <= self.capacity
    }

    /// Blocks of one shape.
    pub open spec fn same_shape(&self, other: &Blocks) -> bool {
        &&& self.capacity == other.capacity
        &&& self.code_size == other.code_size
        &&& self.count == other.count
    }

    /// Every other block is as it was.
    pub open spec fn same_but(&self, other: &Blocks, b: int) -> bool {
        &&& self.same_shape(other)
        &&& forall|c: int| 0 <= c < self.count && c != b ==> #[trigger] self.block(c) == other.block(c)
    }

    /// No blocks.
    pub fn new(capacity: usize, code_size: usize) -> (r: Self)
        requires
            0 < capacity < u32::MAX,
            block_size(capacity as int, code_size as int) <= usize::MAX,
        ensures
            r.wf(),
            r.count == 0,
            r.capacity == capacity,
            r.code_size == code_size,
    {
        let r = Blocks { data: Vec::new(), count: 0, capacity, code_size };
        assert(0 * r.size() == 0) by (nonlinear_arith);
        r
    }

    /// Whether the blocks are well-formed.
    pub fn validate(&self) -> (r: bool)
        ensures
            r == self.wf(),
    {
        let have: usize = self.data.len();
        let n: usize = self.count;
        if self.capacity == 0 || self.capacity >= u32::MAX as usize {
            return false;
        }
        proof {
            let c = self.capacity as int;
            let e = 8 + self.code_size;
            assert(c * e >= e) by (nonlinear_arith)
                requires
                    c >= 1,
                    e >= 0,
            ;
            let b = self.size();
            assert(n * b >= 0) by (nonlinear_arith)
                requires
                    n >= 0,
                    b >= 0,
            ;
        }
        let size: usize = match self.code_size.checked_add(8) {
            Some(entry) => match self.capacity.checked_mul(entry) {
                Some(all) => match all.checked_add(4) {
                    Some(size) => size,
                    None => {
                        return false;
                    },
                },
                None => {
                    return false;
                },
            },
            None => {
                return false;
            },
        };
        match n.checked_mul(size) {
            Some(total) => if total != have {
                return false;
            },
            None => {
                return false;
            },
        }
        let mut b: usize = 0;
        while b < n
            invariant
                b <= n == self.count,
                0 < self.capacity < u32::MAX,
                size == self.size(),
                have == self.data@.len() == n * size,
                forall|c: int|
                    0 <= c < b ==> (#[trigger] self.posting(c)).len() <= self.capacity,
            decreases n - b,
        {
            proof {
                crate::pq::lemma_flat_bounds(b as int, n as int, size as int);
                lemma_block_head(self.capacity as int, self.code_size as int);
                assert(self.block(b as int).subrange(0, 4) =~= self.data@.subrange(
                    b * size,
                    b * size + 4,
                ));
            }
            let len: usize = bytes::read_u32(self.data.as_slice(), b * size) as usize;
            assert(len == self.posting(b as int).len());
            if len > self.capacity {
                return false;
            }
            b = b + 1;
        }
        true
    }

    /// How many bytes a block takes.
    pub fn width(&self) -> (r: usize)
        requires
            self.wf(),
        ensures
            r == self.size(),
    {
        proof {
            lemma_places(0, self.capacity as int, self.code_size as int);
            let e = 8 + self.code_size;
            let c = self.capacity as int;
            assert(e <= c * e) by (nonlinear_arith)
                requires
                    0 < c,
                    0 <= e,
            ;
        }
        4 + self.capacity * (8 + self.code_size)
    }

    pub(crate) proof fn lemma_bounds(&self, b: int)
        requires
            self.wf(),
            0 <= b < self.count,
        ensures
            self.size() >= 4,
            0 <= b * self.size(),
            b * self.size() + self.size() == (b + 1) * self.size(),
            b * self.size() + self.size() <= self.data@.len(),
            self.block(b).len() == self.size(),
            self.posting(b).len() == count_in(self.block(b)),
    {
        lemma_places(0, self.capacity as int, self.code_size as int);
        lemma_blocks(b, self.count as int, self.size());
    }

    /// Where a block begins.
    fn offset(&self, b: usize) -> (r: usize)
        requires
            self.wf(),
            b < self.count,
        ensures
            r == b * self.size(),
            r + self.size() <= self.data@.len(),
    {
        proof {
            self.lemma_bounds(b as int);
        }
        b * self.width()
    }

    /// How many entries a block holds.
    pub fn len(&self, b: usize) -> (r: usize)
        requires
            self.wf(),
            b < self.count,
        ensures
            r == self.posting(b as int).len(),
            r <= self.capacity,
    {
        let start: usize = self.offset(b);
        proof {
            self.lemma_bounds(b as int);
            assert(self.block(b as int).subrange(0, 4) =~= self.data@.subrange(
                start as int,
                start + 4,
            ));
            assert(self.posting(b as int).len() <= self.capacity);
        }
        bytes::read_u32(self.data.as_slice(), start) as usize
    }

    proof fn lemma_entry(&self, b: int, i: int)
        requires
            self.wf(),
            0 <= b < self.count,
            0 <= i < self.posting(b).len(),
        ensures
            ({
                let p = b * self.size() + place(i, self.code_size as int);
                &&& 4 <= place(i, self.code_size as int)
                &&& 0 <= i * (8 + self.code_size) <= usize::MAX
                &&& 0 <= b * self.size() <= p
                &&& p + 8 + self.code_size <= b * self.size() + self.size() <= self.data@.len()
                &&& self.posting(b)[i].id == bytes::long_at(self.data@, p)
                &&& self.posting(b)[i].code == self.data@.subrange(p + 8, p + 8 + self.code_size)
            }),
    {
        self.lemma_bounds(b);
        assert(self.posting(b).len() <= self.capacity);
        lemma_places(i, self.capacity as int, self.code_size as int);
        let q = place(i, self.code_size as int);
        let p = b * self.size() + q;
        let e = 8 + self.code_size;
        assert(0 <= i * e) by (nonlinear_arith)
            requires
                0 <= i,
                0 <= e,
        ;
        assert(self.block(b).subrange(q, q + 8) =~= self.data@.subrange(p, p + 8));
        assert(self.block(b).subrange(q + 8, q + 8 + self.code_size) =~= self.data@.subrange(
            p + 8,
            p + 8 + self.code_size,
        ));
    }

    /// The id of an entry.
    pub fn id(&self, b: usize, i: usize) -> (r: u64)
        requires
            self.wf(),
            b < self.count,
            i < self.posting(b as int).len(),
        ensures
            r == self.posting(b as int)[i as int].id,
    {
        proof {
            self.lemma_entry(b as int, i as int);
        }
        let p: usize = self.offset(b) + (4 + i * (8 + self.code_size));
        bytes::read_u64(self.data.as_slice(), p)
    }

    /// The code of an entry.
    pub fn code(&self, b: usize, i: usize) -> (r: &[u8])
        requires
            self.wf(),
            b < self.count,
            i < self.posting(b as int).len(),
        ensures
            r@ == self.posting(b as int)[i as int].code,
            r@.len() == self.code_size,
    {
        proof {
            self.lemma_entry(b as int, i as int);
        }
        let p: usize = self.offset(b) + (4 + i * (8 + self.code_size));
        vstd::slice::slice_subrange(self.data.as_slice(), p + 8, p + 8 + self.code_size)
    }

    /// Adds an empty block.
    pub fn grow(&mut self)
        requires
            old(self).wf(),
            (old(self).count + 1) * old(self).size() <= usize::MAX,
        ensures
            final(self).wf(),
            final(self).count == old(self).count + 1,
            final(self).capacity == old(self).capacity,
            final(self).code_size == old(self).code_size,
            final(self).posting(old(self).count as int).len() == 0,
            final(self).block(old(self).count as int) == blank_block(old(self).size()),
            forall|b: int|
                0 <= b < old(self).count ==> #[trigger] final(self).block(b) == old(self).block(b),
    {
        let ghost before = *self;
        let ghost n = self.count as int;
        let size: usize = self.width();
        proof {
            lemma_places(0, self.capacity as int, self.code_size as int);
            lemma_blocks(n, n + 1, size as int);
            assert(n + 1 <= (n + 1) * size) by (nonlinear_arith)
                requires
                    0 <= n,
                    1 <= size,
            ;
        }
        let mut i: usize = 0;
        while i < size
            invariant
                i <= size,
                self.count == before.count == n,
                self.capacity == before.capacity,
                self.code_size == before.code_size,
                self.data@.len() == before.data@.len() + i,
                forall|j: int| 0 <= j < before.data@.len() ==> #[trigger] self.data@[j] == before.data@[j],
                forall|j: int|
                    before.data@.len() <= j < before.data@.len() + i ==> #[trigger] self.data@[j] == 0,
            decreases size - i,
        {
            self.data.push(0);
            i = i + 1;
        }
        self.count = self.count + 1;
        proof {
            assert forall|b: int| 0 <= b < n implies #[trigger] self.block(b) == before.block(b) by {
                before.lemma_bounds(b);
                assert(self.block(b) =~= before.block(b));
            }
            assert(self.block(n) =~= blank_block(before.size()));
            assert(self.block(n).subrange(0, 4) =~= bytes::le32(0)) by {
                bytes::lemma_le32(0);
                let zero = self.block(n).subrange(0, 4);
                bytes::lemma_le_value_bytes(zero);
                assert(bytes::le_value(zero) == 0) by {
                    reveal_with_fuel(bytes::le_value, 5);
                }
            }
            bytes::lemma_le32(0);
            assert forall|b: int| 0 <= b < self.count implies (#[trigger] self.posting(b)).len()
                <= self.capacity by {
                if b < n {
                    assert(before.posting(b).len() <= before.capacity);
                    assert(self.block(b) == before.block(b));
                }
            }
        }
    }

    proof fn lemma_patched(&self, after: &Blocks, b: int, q: int, part: Seq<u8>)
        requires
            self.wf(),
            0 <= b < self.count,
            0 <= q,
            q + part.len() <= self.size(),
            after.same_shape(self),
            after.data@ == patched(self.data@, b * self.size() + q, part),
        ensures
            after.block(b) == patched(self.block(b), q, part),
            after.same_but(self, b),
    {
        self.lemma_bounds(b);
        assert(after.block(b) =~= patched(self.block(b), q, part));
        assert forall|c: int| 0 <= c < self.count && c != b implies #[trigger] after.block(c)
            == self.block(c) by {
            self.lemma_bounds(c);
            if c < b {
                lemma_blocks(c, b, self.size());
            } else {
                lemma_blocks(b, c, self.size());
            }
            assert(after.block(c) =~= self.block(c));
        }
    }

    /// Adds an entry to a block.
    pub fn append(&mut self, b: usize, id: u64, code: &[u8])
        requires
            old(self).wf(),
            b < old(self).count,
            old(self).posting(b as int).len() < old(self).capacity,
            code@.len() == old(self).code_size,
        ensures
            final(self).wf(),
            final(self).same_but(&*old(self), b as int),
            final(self).posting(b as int) == old(self).posting(b as int).push(
                (Entry { id, code: code@ }),
            ),
    {
        let ghost before = *self;
        let n: usize = self.len(b);
        let start: usize = self.offset(b);
        let ghost q = place(n as int, self.code_size as int);
        proof {
            self.lemma_bounds(b as int);
            lemma_places(n as int, self.capacity as int, self.code_size as int);
            let e = 8 + self.code_size;
            assert(0 <= n * e) by (nonlinear_arith)
                requires
                    0 <= n,
                    0 <= e,
            ;
            bytes::lemma_le64(id);
            bytes::lemma_le32((n + 1) as u32);
        }
        let mut part: Vec<u8> = Vec::new();
        bytes::push_u64(&mut part, id);
        bytes::push_slice(&mut part, code);
        assert(part@ =~= bytes::le64(id) + code@);
        write_at(&mut self.data, start + (4 + n * (8 + self.code_size)), part.as_slice());
        let ghost mid = *self;
        proof {
            before.lemma_patched(&mid, b as int, q, part@);
        }
        let mut head: Vec<u8> = Vec::new();
        bytes::push_u32(&mut head, (n + 1) as u32);
        assert(head@ =~= bytes::le32((n + 1) as u32));
        write_at(&mut self.data, start, head.as_slice());
        proof {
            lemma_appended(
                before.block(b as int),
                self.capacity as int,
                self.code_size as int,
                id,
                code@,
            );
            let size = self.size();
            assert(self.block(b as int) =~= patched(mid.block(b as int), 0, head@));
            assert forall|c: int| 0 <= c < self.count && c != b implies #[trigger] self.block(c)
                == before.block(c) by {
                before.lemma_bounds(c);
                if c < b {
                    lemma_blocks(c, b as int, size);
                } else {
                    lemma_blocks(b as int, c, size);
                }
                assert(mid.block(c) == before.block(c));
                assert(self.block(c) =~= mid.block(c));
            }
            assert forall|c: int| 0 <= c < self.count implies (#[trigger] self.posting(c)).len()
                <= self.capacity by {
                if c != b {
                    assert(before.posting(c).len() <= before.capacity);
                    assert(self.block(c) == before.block(c));
                }
            }
        }
    }

    /// Empties a block.
    pub fn clear(&mut self, b: usize)
        requires
            old(self).wf(),
            b < old(self).count,
        ensures
            final(self).wf(),
            final(self).same_but(&*old(self), b as int),
            final(self).posting(b as int).len() == 0,
    {
        let ghost before = *self;
        let start: usize = self.offset(b);
        proof {
            self.lemma_bounds(b as int);
            bytes::lemma_le32(0);
        }
        let mut head: Vec<u8> = Vec::new();
        bytes::push_u32(&mut head, 0);
        assert(head@ =~= bytes::le32(0));
        write_at(&mut self.data, start, head.as_slice());
        proof {
            before.lemma_patched(&*self, b as int, 0, head@);
            assert(self.block(b as int).subrange(0, 4) =~= bytes::le32(0));
            assert forall|c: int| 0 <= c < self.count implies (#[trigger] self.posting(c)).len()
                <= self.capacity by {
                if c != b {
                    assert(before.posting(c).len() <= before.capacity);
                    assert(self.block(c) == before.block(c));
                }
            }
        }
    }

    /// The bytes of a block.
    pub fn block_bytes(&self, b: usize) -> (r: Vec<u8>)
        requires
            self.wf(),
            b < self.count,
        ensures
            r@ == self.block(b as int),
    {
        let start: usize = self.offset(b);
        let mut r: Vec<u8> = Vec::new();
        bytes::push_slice(
            &mut r,
            vstd::slice::slice_subrange(self.data.as_slice(), start, start + self.width()),
        );
        assert(r@ =~= self.block(b as int));
        r
    }
}

} // verus!
