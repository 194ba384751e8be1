//! Snapshots of an index of postings: what to store of it, and what to fetch again.
use crate::bytes;
use crate::error::DiskAnnError;
use crate::meta;
use crate::meta::Description;
use crate::meta::Meta;
use crate::metric::Distance;
use crate::postings;
use crate::reopen;
use crate::spfresh::RAW_CHUNK;
use crate::spfresh::SPFresh;
use crate::wire;
use std::collections::HashMap;
use vstd::prelude::*;

verus! {

/// What a snapshot consists of.
pub struct Manifest {
    pub version: u64,
    /// The description of the index.
    pub meta: Vec<u8>,
    /// The version that last wrote each block, or 0.
    pub block_ver: Vec<u64>,
    /// The version that last wrote each chunk of vectors, or 0.
    pub raw_chunk_ver: Vec<u64>,
}

/// The bytes of a manifest with these fields.
pub open spec fn manifest_bytes(
    version: u64,
    description: Seq<u8>,
    block_ver: Seq<u64>,
    raw_chunk_ver: Seq<u64>,
) -> Seq<u8> {
    bytes::le64(version) + (description + wire::two_lists_bytes(block_ver, raw_chunk_ver))
}

impl Manifest {
    /// The manifest in bytes.
    pub open spec fn bytes(&self) -> Seq<u8> {
        manifest_bytes(self.version, self.meta@, self.block_ver@, self.raw_chunk_ver@)
    }

    /// What it says of the index is a description.
    pub open spec fn is_described(&self) -> bool {
        exists|d: Description| self.meta@ == #[trigger] d.bytes()
    }

    /// Writes the manifest.
    pub fn to_bytes(&self) -> (r: Vec<u8>)
        ensures
            r@ == self.bytes(),
    {
        let mut r: Vec<u8> = match wire::serialize_number(self.version) {
            Ok(n) => n,
            Err(_) => Vec::new(),
        };
        bytes::push_slice(&mut r, self.meta.as_slice());
        let lists: Vec<u8> = match wire::serialize_two_lists(&self.block_ver, &self.raw_chunk_ver) {
            Ok(lists) => lists,
            Err(_) => Vec::new(),
        };
        bytes::push_slice(&mut r, lists.as_slice());
        assert(r@ =~= self.bytes());
        r
    }

    /// Reading a manifest from `s` gives `r`.
    pub open spec fn read_as(s: Seq<u8>, r: Result<Manifest, DiskAnnError>) -> bool {
        match r {
            Ok(m) => wire::begins_with(s, m.bytes()) && m.is_described(),
            Err(e) => {
                &&& forall|version: u64, d: Description, a: Seq<u64>, b: Seq<u64>|
                    !wire::begins_with(s, #[trigger] manifest_bytes(version, d.bytes(), a, b))
                &&& e is Bincode
            },
        }
    }

    /// Reads a manifest: it succeeds when the bytes start with one.
    #[verifier::rlimit(40)]
    pub fn from_bytes(s: &[u8]) -> (r: Result<Manifest, DiskAnnError>)
        ensures
            Self::read_as(s@, r),
    {
        let ghost all = s@;
        let len: usize = s.len();
        let version: u64 = match wire::deserialize_number(s) {
            Ok(n) => n,
            Err(e) => {
                proof {
                    assert forall|version: u64, d: Description, a: Seq<u64>, b: Seq<u64>|
                        !wire::begins_with(
                            all,
                            #[trigger] manifest_bytes(version, d.bytes(), a, b),
                        ) by {
                        bytes::lemma_le64(version);
                    }
                }
                return Err(DiskAnnError::Bincode(e));
            },
        };
        proof {
            bytes::lemma_le64(version);
        }
        let rest = vstd::slice::slice_subrange(s, 8, len);
        assert(rest@ =~= all.skip(8));
        proof {
            assert forall|v: u64, d: Description, a: Seq<u64>, b: Seq<u64>|
                wire::begins_with(all, #[trigger] manifest_bytes(v, d.bytes(), a, b)) implies
                v == version && wire::begins_with(
                rest@,
                d.bytes() + wire::two_lists_bytes(a, b),
            ) && wire::begins_with(rest@, d.bytes()) by {
                lemma_manifest_parts(all, v, d.bytes(), a, b);
                assert(all.take(8) =~= bytes::le64(version));
                bytes::lemma_le64(v);
            }
        }
        let d: Meta = match Meta::from_bytes(rest) {
            Ok(d) => d,
            Err(e) => {
                return Err(e);
            },
        };
        let written = d.to_bytes();
        let n: usize = written.len();
        let have: usize = rest.len();
        let end = vstd::slice::slice_subrange(rest, n, have);
        assert(end@ =~= rest@.skip(n as int));
        proof {
            assert forall|v: u64, x: Description, a: Seq<u64>, b: Seq<u64>|
                wire::begins_with(all, #[trigger] manifest_bytes(v, x.bytes(), a, b)) implies
                wire::begins_with(end@, wire::two_lists_bytes(a, b)) by {
                meta::description_is_unique(rest@, x, d@);
                lemma_same_description(x, d@);
                let none = Seq::<u8>::empty();
                assert(x.bytes() + none =~= x.bytes());
                wire::lemma_same_start(
                    rest@,
                    x.bytes(),
                    wire::two_lists_bytes(a, b),
                    x.bytes(),
                    none,
                );
            }
        }
        match wire::deserialize_two_lists(end) {
            Ok(lists) => {
                let m = Manifest {
                    version,
                    meta: written,
                    block_ver: lists.0,
                    raw_chunk_ver: lists.1,
                };
                proof {
                    assert(m.meta@ == d@.bytes());
                    let x = bytes::le64(version);
                    let y = d@.bytes();
                    let z = wire::two_lists_bytes(lists.0@, lists.1@);
                    let k = (x.len() + y.len() + z.len()) as int;
                    assert(all.take(k) =~= all.take(8) + (rest@.take(n as int) + end@.take(
                        z.len() as int,
                    )));
                    assert(wire::begins_with(all, m.bytes()));
                }
                Ok(m)
            },
            Err(e) => Err(DiskAnnError::Bincode(e)),
        }
    }
}

proof fn lemma_manifest_parts(s: Seq<u8>, version: u64, d: Seq<u8>, a: Seq<u64>, b: Seq<u64>)
    requires
        wire::begins_with(s, manifest_bytes(version, d, a, b)),
    ensures
        s.len() >= 8,
        s.take(8) == bytes::le64(version),
        wire::begins_with(s.skip(8), d + wire::two_lists_bytes(a, b)),
        wire::begins_with(s.skip(8), d),
{
    bytes::lemma_le64(version);
    let x = bytes::le64(version);
    let y = d + wire::two_lists_bytes(a, b);
    wire::lemma_same_start(s, x, y, x, y);
    assert(s.take((x + y).len() as int).take(8) =~= s.take(8));
    assert((x + y).take(8) =~= x);
    let rest = s.skip(8);
    assert(rest.take(y.len() as int).take(d.len() as int) =~= rest.take(d.len() as int));
    assert(y.take(d.len() as int) =~= d);
}

proof fn lemma_same_description(a: Description, b: Description)
    requires
        a.same(&b),
    ensures
        a.bytes() == b.bytes(),
{
    meta::lemma_same_record(a.quantizer, b.quantizer);
}

/// Reading a manifest that was written gives it back, whatever follows it.
pub proof fn manifest_reads_back(m: Manifest, rest: Seq<u8>, r: Result<Manifest, DiskAnnError>)
    requires
        m.is_described(),
        (m.bytes() + rest).len() <= u64::MAX,
        Manifest::read_as(m.bytes() + rest, r),
    ensures
        r is Ok,
        r->Ok_0.version == m.version,
        r->Ok_0.meta@ == m.meta@,
        r->Ok_0.block_ver@ == m.block_ver@,
        r->Ok_0.raw_chunk_ver@ == m.raw_chunk_ver@,
{
    let s = m.bytes() + rest;
    assert(s.take(m.bytes().len() as int) =~= m.bytes());
    assert(wire::begins_with(s, m.bytes()));
    let d = choose|d: Description| m.meta@ == #[trigger] d.bytes();
    assert(m.bytes() == manifest_bytes(m.version, d.bytes(), m.block_ver@, m.raw_chunk_ver@));
    let o = r->Ok_0;
    let e = choose|e: Description| o.meta@ == #[trigger] e.bytes();
    lemma_manifest_parts(s, m.version, d.bytes(), m.block_ver@, m.raw_chunk_ver@);
    lemma_manifest_parts(s, o.version, e.bytes(), o.block_ver@, o.raw_chunk_ver@);
    bytes::lemma_le64(m.version);
    bytes::lemma_le64(o.version);
    let tail = s.skip(8);
    meta::description_is_unique(tail, d, e);
    lemma_same_description(d, e);
    let none = Seq::<u8>::empty();
    let x = wire::long_list_bytes(m.raw_chunk_ver@) + none;
    let y = wire::long_list_bytes(o.raw_chunk_ver@) + none;
    assert(wire::two_lists_bytes(m.block_ver@, m.raw_chunk_ver@) =~= wire::long_list_bytes(
        m.block_ver@,
    ) + x);
    assert(wire::two_lists_bytes(o.block_ver@, o.raw_chunk_ver@) =~= wire::long_list_bytes(
        o.block_ver@,
    ) + y);
    wire::lemma_same_start(
        tail,
        d.bytes(),
        wire::long_list_bytes(m.block_ver@) + x,
        d.bytes(),
        wire::long_list_bytes(o.block_ver@) + y,
    );
    let end = tail.skip(d.bytes().len() as int);
    wire::lemma_same_longs(end, m.block_ver@, x, o.block_ver@, y);
    let last = end.skip(wire::long_list_bytes(m.block_ver@).len() as int);
    wire::lemma_same_longs(last, m.raw_chunk_ver@, none, o.raw_chunk_ver@, none);
}

/// What is to be stored for a snapshot.
pub struct Snapshot {
    /// The manifest, once everything else is stored.
    pub manifest: Manifest,
    /// The blocks to store, and when they were written.
    pub blocks: Vec<(u32, u64)>,
    /// The chunks of vectors to store.
    pub chunks: Vec<usize>,
    /// How many vectors there are.
    pub next_id: u64,
}

/// The first `n` numbers, with zeros for those that are missing.
pub open spec fn resized(v: Seq<u64>, n: int) -> Seq<u64> {
    Seq::new(
        n as nat,
        |i: int|
            if i < v.len() {
                v[i]
            } else {
                0
            },
    )
}

fn resize(v: Option<&Vec<u64>>, n: usize) -> (r: Vec<u64>)
    ensures
        r@ == resized(
            match v {
                Some(v) => v@,
                None => Seq::empty(),
            },
            n as int,
        ),
{
    let ghost from = match v {
        Some(v) => v@,
        None => Seq::empty(),
    };
    let mut r: Vec<u64> = Vec::new();
    let mut i: usize = 0;
    while i < n
        invariant
            i <= n,
            from == match v {
                Some(v) => v@,
                None => Seq::empty(),
            },
            r@ == resized(from, i as int),
        decreases n - i,
    {
        let x: u64 = match v {
            Some(v) => if i < v.len() {
                v[i]
            } else {
                0
            },
            None => 0,
        };
        r.push(x);
        i = i + 1;
        assert(r@ =~= resized(from, i as int));
    }
    r
}

/// Whether a block is among those to store.
pub open spec fn stores_block(blocks: Seq<(u32, u64)>, b: int) -> bool {
    exists|i: int| 0 <= i < blocks.len() && (#[trigger] blocks[i]).0 == b
}

proof fn lemma_stores_one_more(blocks: Seq<(u32, u64)>, i: int, c: int)
    requires
        0 <= i < blocks.len(),
    ensures
        stores_block(blocks.take(i + 1), c) == (stores_block(blocks.take(i), c) || c
            == blocks[i].0),
{
    let done = blocks.take(i);
    let more = blocks.take(i + 1);
    if stores_block(done, c) {
        let j = choose|j: int| 0 <= j < done.len() && (#[trigger] done[j]).0 == c;
        assert(more[j].0 == c);
    }
    if c == blocks[i].0 {
        assert(more[i].0 == c);
    }
    if stores_block(more, c) {
        let j = choose|j: int| 0 <= j < more.len() && (#[trigger] more[j]).0 == c;
        if j < i {
            assert(done[j].0 == c);
        }
    }
}

/// The versions of `old` with `version` for the blocks that are stored.
pub open spec fn block_versions(
    old: Seq<u64>,
    blocks: Seq<(u32, u64)>,
    version: u64,
) -> Seq<u64> {
    Seq::new(
        old.len(),
        |b: int|
            if stores_block(blocks, b) {
                version
            } else {
                old[b]
            },
    )
}

/// The chunks from one on.
pub open spec fn chunks_from(first: int, last: int) -> Seq<usize> {
    Seq::new(
        if first <= last {
            (last - first) as nat
        } else {
            0
        },
        |i: int| (first + i) as usize,
    )
}

/// The versions of `old` with `version` from chunk `first` on.
pub open spec fn chunk_versions(old: Seq<u64>, first: int, version: u64) -> Seq<u64> {
    Seq::new(
        old.len(),
        |c: int|
            if c >= first {
                version
            } else {
                old[c]
            },
    )
}

/// How many chunks `n` vectors take.
pub open spec fn chunk_count(n: int) -> int {
    (n + RAW_CHUNK - 1) / (RAW_CHUNK as int)
}

/// The keys of a map, each once, in some order.
fn dirty_keys(m: &HashMap<u32, u64>) -> (r: Vec<u32>)
    ensures
        r@.no_duplicates(),
        forall|k: u32| r@.contains(k) <==> #[trigger] m@.contains_key(k),
{
    broadcast use vstd::std_specs::hash::group_hash_axioms;

    let ghost walk = vstd::std_specs::hash::spec_keys_iter(m);
    let ghost items = vstd::std_specs::iter::IteratorSpec::remaining(&walk).unref();
    let mut r: Vec<u32> = Vec::new();
    for k in walk: m.keys()
        invariant
            r@.len() == walk.index(),
            walk.seq().unref() == items,
            walk.seq().no_duplicates(),
            forall|j: int| 0 <= j < r@.len() ==> #[trigger] r@[j] == items[j],
            forall|j: int| 0 <= j < r@.len() ==> #[trigger] r@[j] == *walk.seq()[j],
    {
        r.push(*k);
    }
    assert(r@ =~= items);
    assert forall|k: u32| r@.contains(k) <==> #[trigger] m@.contains_key(k) by {
        assert(items.to_set().contains(k) <==> m@.dom().contains(k));
    }
    r
}

/// Where the versions of a manifest and of a cached one differ.
pub open spec fn stale(versions: Seq<u64>, cached: Seq<u64>, upto: int) -> Seq<usize>
    decreases upto,
{
    if upto <= 0 {
        Seq::empty()
    } else {
        let before = stale(versions, cached, upto - 1);
        if upto - 1 < cached.len() && cached[upto - 1] == versions[upto - 1] {
            before
        } else {
            before.push((upto - 1) as usize)
        }
    }
}

fn differing(versions: &Vec<u64>, cached: Option<&Vec<u64>>) -> (r: Vec<usize>)
    ensures
        r@ == stale(
            versions@,
            match cached {
                Some(c) => c@,
                None => Seq::empty(),
            },
            versions@.len() as int,
        ),
{
    let ghost have = match cached {
        Some(c) => c@,
        None => Seq::empty(),
    };
    let mut r: Vec<usize> = Vec::new();
    let n: usize = versions.len();
    let mut i: usize = 0;
    while i < n
        invariant
            i <= n == versions@.len(),
            have == match cached {
                Some(c) => c@,
                None => Seq::empty(),
            },
            r@ == stale(versions@, have, i as int),
        decreases n - i,
    {
        let same = match cached {
            Some(c) => i < c.len() && c[i] == versions[i],
            None => false,
        };
        if !same {
            r.push(i);
        }
        i = i + 1;
    }
    r
}

/// The versions of the blocks of a cached snapshot, if there is one.
pub open spec fn cached_blocks(cached: Option<&Manifest>) -> Seq<u64> {
    match cached {
        Some(c) => c.block_ver@,
        None => Seq::empty(),
    }
}

/// The versions of the chunks of a cached snapshot, if there is one.
pub open spec fn cached_chunks(cached: Option<&Manifest>) -> Seq<u64> {
    match cached {
        Some(c) => c.raw_chunk_ver@,
        None => Seq::empty(),
    }
}

impl Manifest {
    /// The blocks that a cached snapshot does not have in this version.
    pub open spec fn blocks_stale(&self, cached: Option<&Manifest>) -> Seq<usize> {
        stale(self.block_ver@, cached_blocks(cached), self.block_ver@.len() as int)
    }

    /// The chunks that a cached snapshot does not have in this version.
    pub open spec fn chunks_stale(&self, cached: Option<&Manifest>) -> Seq<usize> {
        stale(self.raw_chunk_ver@, cached_chunks(cached), self.raw_chunk_ver@.len() as int)
    }
}

impl Manifest {
    /// The blocks to fetch: those that a cached snapshot does not have in this version.
    pub fn stale_blocks(&self, cached: Option<&Manifest>) -> (r: Vec<usize>)
        ensures
            r@ == self.blocks_stale(cached),
    {
        differing(
            &self.block_ver,
            match cached {
                Some(c) => Some(&c.block_ver),
                None => None,
            },
        )
    }

    /// The chunks of vectors to fetch.
    pub fn stale_chunks(&self, cached: Option<&Manifest>) -> (r: Vec<usize>)
        ensures
            r@ == self.chunks_stale(cached),
    {
        differing(
            &self.raw_chunk_ver,
            match cached {
                Some(c) => Some(&c.raw_chunk_ver),
                None => None,
            },
        )
    }
}

/// What is to fetch is what differs from the cached snapshot, and nothing else.
pub proof fn stale_is_what_differs(versions: Seq<u64>, cached: Seq<u64>, upto: int, i: int)
    requires
        0 <= i < upto <= versions.len() <= usize::MAX,
    ensures
        stale(versions, cached, upto).contains(i as usize) <==> !(i < cached.len() && cached[i]
            == versions[i]),
    decreases upto,
{
    let before = stale(versions, cached, upto - 1);
    let now = stale(versions, cached, upto);
    lemma_stale_bound(versions, cached, upto - 1);
    if i < upto - 1 {
        stale_is_what_differs(versions, cached, upto - 1, i);
        if before.contains(i as usize) {
            let j = choose|j: int| 0 <= j < before.len() && before[j] == i as usize;
            assert(now[j] == i as usize);
        }
        if now.contains(i as usize) {
            let j = choose|j: int| 0 <= j < now.len() && now[j] == i as usize;
            if j < before.len() {
                assert(before[j] == i as usize);
            }
        }
    } else {
        if before.contains(i as usize) {
            let j = choose|j: int| 0 <= j < before.len() && before[j] == i as usize;
            assert(before[j] < upto - 1);
        }
        if now.len() > before.len() {
            assert(now[before.len() as int] == i as usize);
        }
    }
}

proof fn lemma_stale_bound(versions: Seq<u64>, cached: Seq<u64>, upto: int)
    requires
        0 <= upto <= versions.len() <= usize::MAX,
    ensures
        forall|j: int|
            0 <= j < stale(versions, cached, upto).len() ==> (#[trigger] stale(
                versions,
                cached,
                upto,
            )[j]) < upto,
    decreases upto,
{
    if upto > 0 {
        lemma_stale_bound(versions, cached, upto - 1);
        let before = stale(versions, cached, upto - 1);
        let now = stale(versions, cached, upto);
        assert forall|j: int| 0 <= j < now.len() implies (#[trigger] now[j]) < upto by {
            if j < before.len() {
                assert(now[j] == before[j]);
            }
        }
    }
}

/// Objects by version and number: blocks, or chunks of vectors.
pub type Objects = spec_fn(u64, int) -> Seq<u8>;

/// The blocks that snapshots up to `version` stored, read by their versions, are the
/// blocks of the index, but for those written since. A block that none of them stored
/// is all zeros.
pub open spec fn holds_blocks<'a, D: Distance>(
    index: &SPFresh<'a, D>,
    store: Objects,
    m: &Manifest,
) -> bool {
    &&& forall|b: int|
        0 <= b < m.block_ver@.len() ==> (#[trigger] m.block_ver@[b]) <= m.version
    &&& forall|b: int|
        0 <= b < index.block_cid@.len() && !index.dirty@.contains_key(b as u32)
            ==> #[trigger] fetched(store, resized(m.block_ver@, index.block_cid@.len() as int), b, index.postings.size())
            == index.postings.block(b)
}

/// What a block is restored to.
pub open spec fn fetched(store: Objects, versions: Seq<u64>, b: int, size: int) -> Seq<u8> {
    if versions[b] == 0 {
        postings::blank_block(size)
    } else {
        store(versions[b], b)
    }
}

/// The objects after the blocks of a snapshot were stored.
pub open spec fn with_blocks<'a, D: Distance>(
    store: Objects,
    index: &SPFresh<'a, D>,
    s: Snapshot,
) -> Objects {
    |v: u64, b: int|
        if v == s.manifest.version && stores_block(s.blocks@, b) {
            index.postings.block(b)
        } else {
            store(v, b)
        }
}

/// The vectors of chunk `c` among `n` vectors of `dim` components.
pub open spec fn chunk_in(raw: Seq<u32>, n: int, dim: int, c: int) -> Seq<u32> {
    let end = if (c + 1) * RAW_CHUNK < n {
        (c + 1) * RAW_CHUNK
    } else {
        n
    };
    raw.subrange(c * RAW_CHUNK * dim, end * dim)
}

/// The chunks that snapshots up to a version stored, read by their versions, are those of
/// the index, as far as its vectors were stored.
pub open spec fn holds_chunks<'a, D: Distance>(
    index: &SPFresh<'a, D>,
    store: Objects,
    m: &Manifest,
) -> bool {
    &&& forall|k: int|
        0 <= k < m.raw_chunk_ver@.len() ==> (#[trigger] m.raw_chunk_ver@[k]) <= m.version
    &&& index.synced_id <= index.next_id
    &&& forall|k: int|
        0 <= k < index.first_chunk(false) ==> k < m.raw_chunk_ver@.len() && #[trigger] store(
            m.raw_chunk_ver@[k],
            k,
        ) == bytes::word_bytes(index.chunk(k))
}

/// The objects after the chunks of a snapshot were stored.
pub open spec fn with_chunks<'a, D: Distance>(
    store: Objects,
    index: &SPFresh<'a, D>,
    s: Snapshot,
) -> Objects {
    |v: u64, k: int|
        if v == s.manifest.version && s.chunks@.contains(k as usize) {
            bytes::word_bytes(index.chunk(k))
        } else {
            store(v, k)
        }
}

impl<'a, D: Distance> SPFresh<'a, D> {
    /// The blocks that a snapshot leads to are the blocks of the index, provided that
    /// those of the snapshot below were those of the index, but for what was written
    /// since.
    pub proof fn snapshot_restores_blocks(
        &self,
        base: Option<&Manifest>,
        s: Snapshot,
        store: Objects,
        b: int,
    )
        requires
            self.wf(),
            self.is_snapshot(base, s),
            base matches Some(m) ==> holds_blocks(self, store, m),
            0 <= b < self.block_cid@.len(),
        ensures
            fetched(
                with_blocks(store, self, s),
                s.manifest.block_ver@,
                b,
                self.postings.size(),
            ) == self.postings.block(b),
    {
        assert(b == b as u32);
        if stores_block(s.blocks@, b) {
        } else {
            assert(!(base is None || self.dirty@.contains_key(b as u32))) by {
                if base is None || self.dirty@.contains_key(b as u32) {
                    assert(stores_block(s.blocks@, (b as u32) as int));
                }
            }
            let m = base->Some_0;
            let old = resized(m.block_ver@, self.block_cid@.len() as int);
            assert(s.manifest.block_ver@[b] == old[b]);
            assert(fetched(store, old, b, self.postings.size()) == self.postings.block(b));
            if b < m.block_ver@.len() {
                assert(m.block_ver@[b] <= m.version);
            }
        }
    }

    /// The chunks that a snapshot leads to are those of the index, provided that those of
    /// the snapshot below were, as far as their vectors were stored.
    pub proof fn snapshot_restores_chunks(
        &self,
        base: Option<&Manifest>,
        s: Snapshot,
        store: Objects,
        c: int,
    )
        requires
            self.is_snapshot(base, s),
            base matches Some(m) ==> holds_chunks(self, store, m),
            0 <= c < chunk_count(self.next_id as int),
        ensures
            with_chunks(store, self, s)(s.manifest.raw_chunk_ver@[c], c) == bytes::word_bytes(
                self.chunk(c),
            ),
    {
        let first = self.first_chunk(base is None);
        let last = chunk_count(self.next_id as int);
        if c >= first {
            assert(s.chunks@[c - first] == c as usize);
            assert(s.chunks@.contains(c as usize));
        } else {
            let m = base->Some_0;
            assert(store(m.raw_chunk_ver@[c], c) == bytes::word_bytes(self.chunk(c)));
            assert(m.raw_chunk_ver@[c] <= m.version);
        }
    }

    /// The blocks to store: all of them for the first snapshot, else those written since
    /// the last; each once, with when it was written.
    pub open spec fn are_to_store(&self, first: bool, blocks: Seq<(u32, u64)>) -> bool {
        let n = self.block_cid@.len();
        &&& forall|i: int, j: int|
            0 <= i < j < blocks.len() ==> (#[trigger] blocks[i]).0 != (#[trigger] blocks[j]).0
        &&& forall|i: int|
            0 <= i < blocks.len() ==> (#[trigger] blocks[i]).0 < n && (first
                || self.dirty@.contains_key(blocks[i].0)) && blocks[i].1 == if self.dirty@.contains_key(
                blocks[i].0,
            ) {
                self.dirty@[blocks[i].0]
            } else {
                0
            }
        &&& forall|b: u32|
            b < n && (first || self.dirty@.contains_key(b)) ==> #[trigger] stores_block(
                blocks,
                b as int,
            )
    }

    /// The first chunk to store: all for the first snapshot, else that of the first
    /// vector that is not in the last.
    pub open spec fn first_chunk(&self, first: bool) -> int {
        if first {
            0
        } else {
            self.synced_id as int / (RAW_CHUNK as int)
        }
    }

    /// What a snapshot on top of `base` stores.
    pub open spec fn is_snapshot(&self, base: Option<&Manifest>, s: Snapshot) -> bool {
        let n = self.block_cid@.len() as int;
        let last = chunk_count(self.next_id as int);
        let first = base is None;
        let old_blocks = match base {
            Some(m) => m.block_ver@,
            None => Seq::empty(),
        };
        let old_chunks = match base {
            Some(m) => m.raw_chunk_ver@,
            None => Seq::empty(),
        };
        &&& s.manifest.version == match base {
            Some(m) => m.version + 1,
            None => 1,
        }
        &&& exists|order: Seq<u64>| #[trigger]
            reopen::is_listing(order, self.deleted@) && s.manifest.meta@ == self.described(
                order,
            ).bytes()
        &&& self.are_to_store(first, s.blocks@)
        &&& s.chunks@ == chunks_from(self.first_chunk(first), last)
        &&& s.manifest.block_ver@ == block_versions(
            resized(old_blocks, n),
            s.blocks@,
            s.manifest.version,
        )
        &&& s.manifest.raw_chunk_ver@ == chunk_versions(
            resized(old_chunks, last),
            self.first_chunk(first),
            s.manifest.version,
        )
        &&& s.next_id == self.next_id
    }

    #[verifier::rlimit(40)]
    fn blocks_to_store(&self, first: bool) -> (r: Vec<(u32, u64)>)
        requires
            self.block_cid@.len() < u32::MAX,
        ensures
            self.are_to_store(first, r@),
    {
        broadcast use vstd::std_specs::hash::group_hash_axioms;

        let n: usize = self.block_cid.len();
        let mut r: Vec<(u32, u64)> = Vec::new();
        if first {
            let mut b: usize = 0;
            while b < n
                invariant
                    b <= n == self.block_cid@.len() < u32::MAX,
                    r@.len() == b,
                    forall|i: int|
                        0 <= i < b ==> (#[trigger] r@[i]).0 == i && r@[i].1
                            == if self.dirty@.contains_key(r@[i].0) {
                            self.dirty@[r@[i].0]
                        } else {
                            0
                        },
                decreases n - b,
            {
                broadcast use vstd::std_specs::hash::group_hash_axioms;

                let k: u32 = b as u32;
                let seq: u64 = match self.dirty.get(&k) {
                    Some(s) => *s,
                    None => 0,
                };
                r.push((k, seq));
                b = b + 1;
            }
            assert forall|b: u32| b < n implies #[trigger] stores_block(r@, b as int) by {
                assert(r@[b as int].0 == b);
            }
            return r;
        }
        let keys = dirty_keys(&self.dirty);
        let m: usize = keys.len();
        let mut i: usize = 0;
        while i < m
            invariant
                i <= m == keys@.len(),
                n == self.block_cid@.len(),
                keys@.no_duplicates(),
                forall|k: u32| keys@.contains(k) <==> #[trigger] self.dirty@.contains_key(k),
                forall|j: int, k: int|
                    0 <= j < k < r@.len() ==> (#[trigger] r@[j]).0 != (#[trigger] r@[k]).0,
                forall|j: int|
                    0 <= j < r@.len() ==> (#[trigger] r@[j]).0 < n && self.dirty@.contains_key(
                        r@[j].0,
                    ) && r@[j].1 == self.dirty@[r@[j].0] && exists|k: int|
                        0 <= k < i && #[trigger] keys@[k] == r@[j].0,
                forall|k: int|
                    0 <= k < i && (#[trigger] keys@[k]) < n ==> stores_block(r@, keys@[k] as int),
            decreases m - i,
        {
            broadcast use vstd::std_specs::hash::group_hash_axioms;

            let b: u32 = keys[i];
            let ghost was = r@;
            assert(keys@.contains(b));
            assert(self.dirty@.contains_key(b));
            if (b as usize) < n {
                let seq: u64 = match self.dirty.get(&b) {
                    Some(s) => *s,
                    None => 0,
                };
                r.push((b, seq));
            }
            proof {
                assert forall|j: int| 0 <= j < r@.len() implies (#[trigger] r@[j]).0 < n
                    && self.dirty@.contains_key(r@[j].0) && r@[j].1 == self.dirty@[r@[j].0]
                    && exists|k: int| 0 <= k < i + 1 && #[trigger] keys@[k] == r@[j].0 by {
                    if j < was.len() {
                        assert(r@[j] == was[j]);
                        let k = choose|k: int| 0 <= k < i && #[trigger] keys@[k] == was[j].0;
                        assert(keys@[k] == r@[j].0);
                    } else {
                        assert(keys@[i as int] == r@[j].0);
                    }
                }
                assert forall|j: int, k: int| 0 <= j < k < r@.len() implies (#[trigger] r@[j]).0
                    != (#[trigger] r@[k]).0 by {
                    assert(r@[j] == was[j]);
                    if k < was.len() {
                        assert(r@[k] == was[k]);
                    } else {
                        let q = choose|q: int| 0 <= q < i && #[trigger] keys@[q] == was[j].0;
                        assert(keys@[q] != keys@[i as int]);
                    }
                }
                assert forall|k: int| 0 <= k < i + 1 && (#[trigger] keys@[k]) < n implies stores_block(
                    r@,
                    keys@[k] as int,
                ) by {
                    if k < i {
                        assert(stores_block(was, keys@[k] as int));
                        let j = choose|j: int|
                            0 <= j < was.len() && (#[trigger] was[j]).0 == keys@[k] as int;
                        assert(r@[j].0 == keys@[k]);
                    } else {
                        assert(r@[was.len() as int].0 == keys@[k]);
                    }
                }
            }
            i = i + 1;
        }
        assert forall|b: u32| b < n && self.dirty@.contains_key(b) implies #[trigger] stores_block(
            r@,
            b as int,
        ) by {
            assert(keys@.contains(b));
            let k = choose|k: int| 0 <= k < m && keys@[k] == b;
            assert(stores_block(r@, keys@[k] as int));
        }
        r
    }

    /// Tells what a snapshot on top of the last one stores.
    #[verifier::rlimit(40)]
    pub fn snapshot(&self, base: Option<&Manifest>) -> (s: Snapshot)
        requires
            self.wf(),
            base matches Some(m) ==> m.version < u64::MAX,
            self.next_id + RAW_CHUNK <= usize::MAX,
        ensures
            self.is_snapshot(base, s),
    {
        let n: usize = self.block_cid.len();
        let first = base.is_none();
        let version: u64 = match base {
            Some(m) => m.version + 1,
            None => 1,
        };
        let blocks = self.blocks_to_store(first);
        let mut block_ver = resize(
            match base {
                Some(m) => Some(&m.block_ver),
                None => None,
            },
            n,
        );
        let ghost old_blocks = block_ver@;
        let count: usize = blocks.len();
        let mut i: usize = 0;
        assert(block_ver@ =~= block_versions(old_blocks, blocks@.take(0), version));
        while i < count
            invariant
                i <= count == blocks@.len(),
                n == old_blocks.len() == self.block_cid@.len(),
                self.are_to_store(first, blocks@),
                block_ver@ == block_versions(old_blocks, blocks@.take(i as int), version),
            decreases count - i,
        {
            let b: usize = blocks[i].0 as usize;
            assert(blocks@[i as int].0 < n);
            block_ver.set(b, version);
            proof {
                let done = blocks@.take(i as int);
                let more = blocks@.take(i + 1);
                let right = block_versions(old_blocks, more, version);
                assert forall|c: int| 0 <= c < n implies block_ver@[c] == right[c] by {
                    lemma_stores_one_more(blocks@, i as int, c);
                }
                assert(block_ver@ =~= right);
            }
            i = i + 1;
        }
        assert(blocks@.take(count as int) =~= blocks@);
        let last: usize = (self.next_id as usize + (RAW_CHUNK - 1)) / RAW_CHUNK;
        let start: u64 = if first {
            0
        } else {
            self.synced_id / RAW_CHUNK as u64
        };
        let mut raw_chunk_ver = resize(
            match base {
                Some(m) => Some(&m.raw_chunk_ver),
                None => None,
            },
            last,
        );
        let ghost old_chunks = raw_chunk_ver@;
        let mut chunks: Vec<usize> = Vec::new();
        if start < last as u64 {
            let from: usize = start as usize;
            let mut c: usize = from;
            while c < last
                invariant
                    from <= c <= last == old_chunks.len(),
                    chunks@ == chunks_from(from as int, c as int),
                    raw_chunk_ver@.len() == last,
                    forall|j: int|
                        0 <= j < last ==> #[trigger] raw_chunk_ver@[j] == if from <= j < c {
                            version
                        } else {
                            old_chunks[j]
                        },
                decreases last - c,
            {
                chunks.push(c);
                raw_chunk_ver.set(c, version);
                c = c + 1;
                assert(chunks@ =~= chunks_from(from as int, c as int));
            }
        }
        assert(chunks@ =~= chunks_from(start as int, last as int));
        assert(raw_chunk_ver@ =~= chunk_versions(old_chunks, start as int, version));
        let description = self.meta();
        Snapshot {
            manifest: Manifest { version, meta: description, block_ver, raw_chunk_ver },
            blocks,
            chunks,
            next_id: self.next_id,
        }
    }

    /// The vectors of a chunk.
    pub open spec fn chunk(&self, c: int) -> Seq<u32> {
        chunk_in(self.raw@, self.next_id as int, self.dim as int, c)
    }

    /// The bytes of a block.
    pub fn block_bytes(&self, b: u32) -> (r: Vec<u8>)
        requires
            self.wf(),
            b < self.block_cid@.len(),
        ensures
            r@ == self.postings.block(b as int),
    {
        self.postings.block_bytes(b as usize)
    }

    /// The bytes of a chunk of vectors.
    pub fn chunk_bytes(&self, c: usize) -> (r: Vec<u8>)
        requires
            self.wf(),
            c < chunk_count(self.next_id as int),
            self.next_id + RAW_CHUNK <= usize::MAX,
        ensures
            r@ == bytes::word_bytes(self.chunk(c as int)),
    {
        let n: usize = self.next_id as usize;
        let from: usize = c * RAW_CHUNK;
        let end: usize = if from + RAW_CHUNK < n {
            from + RAW_CHUNK
        } else {
            n
        };
        proof {
            let d = self.dim as int;
            assert(0 <= from * d <= end * d <= n * d) by (nonlinear_arith)
                requires
                    0 <= from <= end <= n,
                    0 <= d,
            ;
            assert(c * RAW_CHUNK * d == from * d);
        }
        let words = vstd::slice::slice_subrange(
            self.raw.as_slice(),
            from * self.dim,
            end * self.dim,
        );
        let mut r: Vec<u8> = Vec::new();
        bytes::push_words(&mut r, words);
        assert(r@ =~= bytes::word_bytes(self.chunk(c as int)));
        r
    }

    /// Blocks that a snapshot stored are clean, unless they were written since.
    pub open spec fn is_synced(&self, before: &Self, blocks: Seq<(u32, u64)>, next_id: u64) -> bool {
        &&& forall|b: u32| #[trigger]
            self.dirty@.contains_key(b) <==> before.dirty@.contains_key(b) && !blocks.contains(
                (b, before.dirty@[b]),
            )
        &&& forall|b: u32| #[trigger]
            self.dirty@.contains_key(b) ==> self.dirty@[b] == before.dirty@[b]
        &&& self.synced_id == if before.synced_id < next_id {
            next_id
        } else {
            before.synced_id
        }
        &&& self.same_places(before)
        &&& self.epoch == before.epoch
        &&& self.write_seq == before.write_seq
        &&& self.deleted == before.deleted
        &&& self.live == before.live
    }

    /// Takes note that a snapshot is stored.
    pub fn finish_snapshot(&mut self, blocks: &Vec<(u32, u64)>, next_id: u64)
        ensures
            final(self).is_synced(&*old(self), blocks@, next_id),
            old(self).wf() ==> final(self).wf(),
            old(self).wf() && old(self).is_small() ==> final(self).is_small(),
            old(self).wf() && old(self).is_complete() ==> final(self).is_complete(),
    {
        broadcast use vstd::std_specs::hash::group_hash_axioms;

        let ghost pre = *self;
        let n: usize = blocks.len();
        let mut i: usize = 0;
        while i < n
            invariant
                i <= n == blocks@.len(),
                self.is_synced(&pre, blocks@.take(i as int), 0),
            decreases n - i,
        {
            broadcast use vstd::std_specs::hash::group_hash_axioms;

            let (b, seq) = blocks[i];
            let ghost mid = self.dirty@;
            let clean = match self.dirty.get(&b) {
                Some(s) => *s == seq,
                None => false,
            };
            if clean {
                self.dirty.remove(&b);
            }
            proof {
                let done = blocks@.take(i as int);
                let more = blocks@.take(i + 1);
                assert forall|x: (u32, u64)| #[trigger] more.contains(x) <==> done.contains(x) || x
                    == (b, seq) by {
                    if done.contains(x) {
                        let j = choose|j: int| 0 <= j < done.len() && done[j] == x;
                        assert(more[j] == x);
                    }
                    assert(more[i as int] == (b, seq));
                    if more.contains(x) {
                        let j = choose|j: int| 0 <= j < more.len() && more[j] == x;
                        if j < i {
                            assert(done[j] == x);
                        }
                    }
                }
                assert forall|c: u32| #[trigger] self.dirty@.contains_key(c)
                    <==> pre.dirty@.contains_key(c) && !more.contains((c, pre.dirty@[c])) by {
                    assert(mid.contains_key(c) <==> pre.dirty@.contains_key(c) && !done.contains(
                        (c, pre.dirty@[c]),
                    ));
                }
            }
            i = i + 1;
        }
        assert(blocks@.take(n as int) =~= blocks@);
        if self.synced_id < next_id {
            self.synced_id = next_id;
        }
        proof {
            if pre.wf() {
                self.lemma_same_places(&pre);
                if pre.is_complete() {
                    assert forall|id: u64|
                        id < self.next_id && !self.deleted@.contains(
                            id,
                        ) implies #[trigger] self.is_placed(id) by {
                        assert(pre.is_placed(id));
                    }
                }
            }
        }
    }
}

/// What a file holds after `part` was written at `p`.
pub open spec fn overlaid(s: Seq<u8>, p: int, part: Seq<u8>) -> Seq<u8> {
    Seq::new(
        if p + part.len() > s.len() {
            (p + part.len()) as nat
        } else {
            s.len()
        },
        |i: int|
            if p <= i < p + part.len() {
                part[i - p]
            } else if i < s.len() {
                s[i]
            } else {
                0u8
            },
    )
}

/// What a file holds after it was cut or filled up to a length.
pub open spec fn sized(s: Seq<u8>, n: int) -> Seq<u8> {
    Seq::new(
        n as nat,
        |i: int|
            if i < s.len() {
                s[i]
            } else {
                0u8
            },
    )
}

/// The first `upto` objects, each written at its place.
pub open spec fn with_objects(
    s: Seq<u8>,
    places: Seq<usize>,
    stride: int,
    objects: Seq<Seq<u8>>,
    upto: int,
) -> Seq<u8>
    decreases upto,
{
    if upto <= 0 {
        s
    } else {
        overlaid(
            with_objects(s, places, stride, objects, upto - 1),
            places[upto - 1] * stride,
            objects[upto - 1],
        )
    }
}

fn resize_file(file: Vec<u8>, n: usize) -> (r: Vec<u8>)
    ensures
        r@ == sized(file@, n as int),
{
    let mut r = file;
    if n < r.len() {
        r.truncate(n);
    }
    while r.len() < n
        invariant
            r@.len() <= n,
            r@.len() < n ==> file@.len() <= r@.len(),
            r@ == sized(file@, r@.len() as int),
        decreases n - r@.len(),
    {
        r.push(0);
        assert(r@ =~= sized(file@, r@.len() as int));
    }
    assert(r@ =~= sized(file@, n as int));
    r
}

fn write_over(data: &mut Vec<u8>, p: usize, part: &[u8])
    requires
        p + part@.len() <= usize::MAX,
    ensures
        final(data)@ == overlaid(old(data)@, p as int, part@),
{
    let ghost before = data@;
    let mut i: usize = 0;
    while data.len() < p
        invariant
            before.len() <= data@.len(),
            data@.len() <= p || data@.len() == before.len(),
            data@ == sized(before, data@.len() as int),
        decreases p - data@.len(),
    {
        data.push(0);
        assert(data@ =~= sized(before, data@.len() as int));
    }
    assert(data@ =~= overlaid(data@, p as int, part@.take(0)));
    let ghost filled = data@;
    while i < part.len()
        invariant
            i <= part@.len(),
            p + part@.len() <= usize::MAX,
            p <= filled.len(),
            data@ == overlaid(filled, p as int, part@.take(i as int)),
        decreases part@.len() - i,
    {
        if p + i < data.len() {
            data.set(p + i, part[i]);
        } else {
            data.push(part[i]);
        }
        i = i + 1;
        assert(data@ =~= overlaid(filled, p as int, part@.take(i as int)));
    }
    assert(part@.take(part@.len() as int) =~= part@);
    assert(data@ =~= overlaid(before, p as int, part@));
}

/// Objects of bytes.
pub open spec fn contents(objects: Seq<Vec<u8>>) -> Seq<Seq<u8>> {
    objects.map_values(|o: Vec<u8>| o@)
}

/// Bytes of a file of `n` blocks: room for one at least.
pub open spec fn blocks_len(n: int, size: int) -> int {
    if n == 0 {
        size
    } else {
        n * size
    }
}

/// The objects can be written at their places.
pub open spec fn have_room(places: Seq<usize>, stride: int, objects: Seq<Vec<u8>>) -> bool {
    &&& places.len() == objects.len()
    &&& forall|i: int|
        0 <= i < places.len() ==> (#[trigger] places[i]) * stride + objects[i]@.len() <= usize::MAX
}

fn place_objects(file: Vec<u8>, places: &Vec<usize>, stride: usize, objects: &Vec<Vec<u8>>) -> (r:
    Vec<u8>)
    requires
        have_room(places@, stride as int, objects@),
    ensures
        r@ == with_objects(
            file@,
            places@,
            stride as int,
            contents(objects@),
            places@.len() as int,
        ),
{
    let mut r = file;
    let n: usize = places.len();
    let mut i: usize = 0;
    while i < n
        invariant
            i <= n == places@.len(),
            have_room(places@, stride as int, objects@),
            r@ == with_objects(file@, places@, stride as int, contents(objects@), i as int),
        decreases n - i,
    {
        let at: usize = places[i];
        proof {
            assert(0 <= at * stride) by (nonlinear_arith)
                requires
                    0 <= at,
                    0 <= stride,
            ;
            assert(places@[i as int] * stride + objects@[i as int]@.len() <= usize::MAX);
        }
        write_over(&mut r, at * stride, objects[i].as_slice());
        i = i + 1;
    }
    r
}

impl Manifest {
    /// What the objects for stale blocks stand for: a block that was never stored is
    /// blank.
    pub open spec fn blocks_for(
        &self,
        places: Seq<usize>,
        size: int,
        objects: Seq<Vec<u8>>,
    ) -> Seq<Seq<u8>> {
        Seq::new(
            objects.len(),
            |i: int|
                if self.block_ver@[places[i] as int] == 0 {
                    postings::blank_block(size)
                } else {
                    objects[i]@
                },
        )
    }

    /// Brings a file of blocks of a cached snapshot to this one. The objects are those of
    /// the stale blocks, in their order; of a block that was never stored, none is needed.
    pub fn restore_blocks(
        &self,
        cached: Option<&Manifest>,
        file: Vec<u8>,
        size: usize,
        objects: Vec<Vec<u8>>,
    ) -> (r: Vec<u8>)
        requires
            (self.block_ver@.len() + 1) * size <= usize::MAX,
            have_room(self.blocks_stale(cached), size as int, objects@),
        ensures
            r@ == with_objects(
                sized(file@, blocks_len(self.block_ver@.len() as int, size as int)),
                self.blocks_stale(cached),
                size as int,
                self.blocks_for(self.blocks_stale(cached), size as int, objects@),
                self.blocks_stale(cached).len() as int,
            ),
    {
        let n: usize = self.block_ver.len();
        proof {
            let k = n as int;
            assert(0 <= k * size <= (k + 1) * size) by (nonlinear_arith)
                requires
                    0 <= k,
                    0 <= size,
            ;
        }
        let places = self.stale_blocks(cached);
        let ghost given = objects@;
        let mut all: Vec<Vec<u8>> = objects;
        let ghost right = self.blocks_for(places@, size as int, given);
        let count: usize = places.len();
        proof {
            lemma_stale_bound(self.block_ver@, cached_blocks(cached), n as int);
        }
        let mut i: usize = 0;
        while i < count
            invariant
                i <= count == places@.len() == all@.len() == given.len(),
                n == self.block_ver@.len(),
                (n + 1) * size <= usize::MAX,
                right == self.blocks_for(places@, size as int, given),
                forall|j: int| 0 <= j < count ==> (#[trigger] places@[j]) < n,
                have_room(places@, size as int, given),
                have_room(places@, size as int, all@),
                forall|j: int| 0 <= j < i ==> (#[trigger] all@[j])@ == right[j],
                forall|j: int| i <= j < count ==> #[trigger] all@[j] == given[j],
            decreases count - i,
        {
            let b: usize = places[i];
            if self.block_ver[b] == 0 {
                let blank = resize_file(Vec::new(), size);
                assert(blank@ =~= postings::blank_block(size as int));
                let ghost was = all@;
                all.set(i, blank);
                proof {
                    assert(b * size + size <= (n + 1) * size) by (nonlinear_arith)
                        requires
                            b < n,
                            0 <= size,
                    ;
                    assert forall|j: int| 0 <= j < count implies (#[trigger] places@[j]) * size
                        + all@[j]@.len() <= usize::MAX by {
                        if j != i {
                            assert(all@[j] == was[j]);
                        }
                    }
                }
            }
            i = i + 1;
        }
        assert(contents(all@) =~= right);
        let len: usize = if n == 0 {
            size
        } else {
            n * size
        };
        place_objects(resize_file(file, len), &places, size, &all)
    }

    /// Brings a file of vectors of a cached snapshot to this one, which holds `next_id`
    /// vectors of `dim` components. The objects are those of the stale chunks.
    pub fn restore_chunks(
        &self,
        cached: Option<&Manifest>,
        file: Vec<u8>,
        next_id: usize,
        dim: usize,
        objects: Vec<Vec<u8>>,
    ) -> (r: Vec<u8>)
        requires
            4 * (RAW_CHUNK * dim) <= usize::MAX,
            4 * (next_id * dim) <= usize::MAX,
            have_room(self.chunks_stale(cached), 4 * (RAW_CHUNK * dim), objects@),
        ensures
            r@ == with_objects(
                sized(file@, 4 * (next_id * dim)),
                self.chunks_stale(cached),
                4 * (RAW_CHUNK * dim),
                contents(objects@),
                self.chunks_stale(cached).len() as int,
            ),
    {
        proof {
            assert(0 <= next_id * dim) by (nonlinear_arith)
                requires
                    0 <= next_id,
                    0 <= dim,
            ;
        }
        let places = self.stale_chunks(cached);
        place_objects(
            resize_file(file, 4 * (next_id * dim)),
            &places,
            4 * (RAW_CHUNK * dim),
            &objects,
        )
    }
}

/// Where the stale ones are, in rising order.
proof fn lemma_stale_rises(versions: Seq<u64>, cached: Seq<u64>, upto: int)
    requires
        0 <= upto <= versions.len() <= usize::MAX,
    ensures
        forall|i: int, j: int|
            0 <= i < j < stale(versions, cached, upto).len() ==> (#[trigger] stale(
                versions,
                cached,
                upto,
            )[i]) < (#[trigger] stale(versions, cached, upto)[j]),
    decreases upto,
{
    if upto > 0 {
        lemma_stale_rises(versions, cached, upto - 1);
        lemma_stale_bound(versions, cached, upto - 1);
        let before = stale(versions, cached, upto - 1);
        let now = stale(versions, cached, upto);
        assert forall|i: int, j: int| 0 <= i < j < now.len() implies (#[trigger] now[i]) < (
        #[trigger] now[j]) by {
            assert(now[i] == before[i]);
            if j < before.len() {
                assert(now[j] == before[j]);
            }
        }
    }
}

/// Objects that are no longer than the stride: each stands at its place, and what no
/// object was written over is as it was.
proof fn lemma_with_objects(
    s: Seq<u8>,
    places: Seq<usize>,
    stride: int,
    objects: Seq<Seq<u8>>,
    upto: int,
    b: int,
)
    requires
        0 <= upto <= places.len() == objects.len(),
        0 <= b,
        0 < stride,
        forall|i: int| 0 <= i < objects.len() ==> (#[trigger] objects[i]).len() <= stride,
        forall|i: int, j: int|
            0 <= i < j < places.len() ==> (#[trigger] places[i]) < (#[trigger] places[j]),
    ensures
        with_objects(s, places, stride, objects, upto).len() >= s.len(),
        forall|j: int|
            0 <= j < upto && (#[trigger] places[j]) == b ==> {
                &&& b * stride + objects[j].len() <= with_objects(
                    s,
                    places,
                    stride,
                    objects,
                    upto,
                ).len()
                &&& with_objects(s, places, stride, objects, upto).subrange(
                    b * stride,
                    b * stride + objects[j].len(),
                ) == objects[j]
            },
        (forall|j: int| 0 <= j < upto ==> (#[trigger] places[j]) != b) ==> forall|i: int|
            b * stride <= i < b * stride + stride && i < s.len() ==> #[trigger] with_objects(
                s,
                places,
                stride,
                objects,
                upto,
            )[i] == s[i],
    decreases upto,
{
    assert(0 <= b * stride) by (nonlinear_arith)
        requires
            0 <= b,
            0 < stride,
    ;
    if upto > 0 {
        lemma_with_objects(s, places, stride, objects, upto - 1, b);
        let mid = with_objects(s, places, stride, objects, upto - 1);
        let now = with_objects(s, places, stride, objects, upto);
        let q = places[upto - 1] as int;
        let part = objects[upto - 1];
        assert(part.len() <= stride);
        if q < b {
            assert(q * stride + stride <= b * stride) by (nonlinear_arith)
                requires
                    q < b,
                    0 < stride,
            ;
        } else if b < q {
            assert(b * stride + stride <= q * stride) by (nonlinear_arith)
                requires
                    b < q,
                    0 < stride,
            ;
        }
        assert(0 <= q * stride) by (nonlinear_arith)
            requires
                0 <= q,
                0 < stride,
        ;
        assert forall|j: int| 0 <= j < upto && (#[trigger] places[j]) == b implies b * stride
            + objects[j].len() <= now.len() && now.subrange(
            b * stride,
            b * stride + objects[j].len(),
        ) == objects[j] by {
            if j == upto - 1 {
                assert(now.subrange(b * stride, b * stride + objects[j].len()) =~= objects[j]);
            } else {
                assert(places[j] < places[upto - 1]);
                assert(objects[j].len() <= stride);
                assert(now.subrange(b * stride, b * stride + objects[j].len()) =~= mid.subrange(
                    b * stride,
                    b * stride + objects[j].len(),
                ));
            }
        }
    }
}

/// Object `i` is what was stored of the block at its place, where it was stored.
pub open spec fn is_fetched(
    m: &Manifest,
    places: Seq<usize>,
    store: Objects,
    size: int,
    objects: Seq<Vec<u8>>,
    i: int,
) -> bool {
    let b = places[i] as int;
    m.block_ver@[b] != 0 ==> objects[i]@ == store(m.block_ver@[b], b) && objects[i]@.len() == size
}

/// A cached file of blocks, brought to a snapshot, holds its blocks: those that are not
/// stale are in the cache, and the others are fetched.
pub proof fn refreshed_cache_holds_blocks(
    m: &Manifest,
    cached: Option<&Manifest>,
    store: Objects,
    file: Seq<u8>,
    size: int,
    objects: Seq<Vec<u8>>,
    r: Seq<u8>,
    b: int,
)
    requires
        0 < size,
        m.block_ver@.len() <= usize::MAX,
        0 <= b < m.block_ver@.len(),
        forall|c: int|
            0 <= c < cached_blocks(cached).len() && c < m.block_ver@.len() ==> c * size + size
                <= file.len() && #[trigger] file.subrange(c * size, c * size + size) == fetched(
                store,
                cached_blocks(cached),
                c,
                size,
            ),
        objects.len() == m.blocks_stale(cached).len(),
        forall|i: int|
            0 <= i < objects.len() ==> is_fetched(m, m.blocks_stale(cached), store, size, objects, i),
        r == with_objects(
            sized(file, blocks_len(m.block_ver@.len() as int, size)),
            m.blocks_stale(cached),
            size,
            m.blocks_for(m.blocks_stale(cached), size, objects),
            m.blocks_stale(cached).len() as int,
        ),
    ensures
        r.subrange(b * size, b * size + size) == fetched(store, m.block_ver@, b, size),
{
    let have = cached_blocks(cached);
    let n = m.block_ver@.len() as int;
    let places = m.blocks_stale(cached);
    let parts = m.blocks_for(places, size, objects);
    let base = sized(file, n * size);
    lemma_stale_rises(m.block_ver@, have, n);
    lemma_stale_bound(m.block_ver@, have, n);
    assert forall|i: int| 0 <= i < parts.len() implies (#[trigger] parts[i]).len() <= size by {
        assert(is_fetched(m, places, store, size, objects, i));
    }
    lemma_with_objects(base, places, size, parts, places.len() as int, b);
    stale_is_what_differs(m.block_ver@, have, n, b);
    assert(0 <= b * size && b * size + size <= n * size) by (nonlinear_arith)
        requires
            0 <= b < n,
            0 < size,
    ;
    if places.contains(b as usize) {
        let j = choose|j: int| 0 <= j < places.len() && places[j] == b as usize;
        assert(is_fetched(m, places, store, size, objects, j));
        assert(parts[j].len() == size);
        assert(r.subrange(b * size, b * size + parts[j].len()) == parts[j]);
    } else {
        assert forall|j: int| 0 <= j < places.len() implies (#[trigger] places[j]) != b by {
            if places[j] == b {
                assert(places.contains(b as usize));
            }
        }
        let old = file.subrange(b * size, b * size + size);
        assert(old == fetched(store, have, b, size));
        assert forall|i: int| 0 <= i < size implies r.subrange(b * size, b * size + size)[i]
            == old[i] by {
            assert(r[b * size + i] == base[b * size + i]);
        }
        assert(r.subrange(b * size, b * size + size) =~= old);
    }
}

/// How many bytes chunk `c` of `n` vectors of `dim` components takes.
pub open spec fn chunk_len(n: int, dim: int, c: int) -> int {
    if (c + 1) * RAW_CHUNK < n {
        4 * (RAW_CHUNK * dim)
    } else {
        4 * (n * dim) - c * (4 * (RAW_CHUNK * dim))
    }
}

/// Bytes are what was stored of chunk `c`, and as many as it takes.
pub open spec fn is_chunk(m: &Manifest, store: Objects, n: int, dim: int, c: int, b: Seq<u8>) -> bool {
    b == store(m.raw_chunk_ver@[c], c) && b.len() == chunk_len(n, dim, c)
}

/// A cached file of vectors, brought to a snapshot, holds its chunks: those that are not
/// stale are in the cache, and the others are fetched.
pub proof fn refreshed_cache_holds_chunks(
    m: &Manifest,
    cached: Option<&Manifest>,
    store: Objects,
    file: Seq<u8>,
    n: int,
    dim: int,
    objects: Seq<Vec<u8>>,
    r: Seq<u8>,
    c: int,
)
    requires
        0 < dim,
        0 <= n,
        m.raw_chunk_ver@.len() == chunk_count(n) <= usize::MAX,
        0 <= c < chunk_count(n),
        forall|k: int|
            0 <= k < cached_chunks(cached).len() && k < m.raw_chunk_ver@.len() && cached_chunks(
                cached,
            )[k] == m.raw_chunk_ver@[k] ==> k * (4 * (RAW_CHUNK * dim)) + chunk_len(n, dim, k)
                <= file.len() && is_chunk(
                m,
                store,
                n,
                dim,
                k,
                #[trigger] file.subrange(
                    k * (4 * (RAW_CHUNK * dim)),
                    k * (4 * (RAW_CHUNK * dim)) + chunk_len(n, dim, k),
                ),
            ),
        objects.len() == m.chunks_stale(cached).len(),
        forall|i: int|
            0 <= i < objects.len() ==> is_chunk(
                m,
                store,
                n,
                dim,
                m.chunks_stale(cached)[i] as int,
                (#[trigger] objects[i])@,
            ),
        r == with_objects(
            sized(file, 4 * (n * dim)),
            m.chunks_stale(cached),
            4 * (RAW_CHUNK * dim),
            contents(objects),
            m.chunks_stale(cached).len() as int,
        ),
    ensures
        r.subrange(
            c * (4 * (RAW_CHUNK * dim)),
            c * (4 * (RAW_CHUNK * dim)) + chunk_len(n, dim, c),
        ) == store(m.raw_chunk_ver@[c], c),
{
    let have = cached_chunks(cached);
    let count = chunk_count(n);
    let stride = 4 * (RAW_CHUNK * dim);
    let places = m.chunks_stale(cached);
    let parts = contents(objects);
    let base = sized(file, 4 * (n * dim));
    lemma_stale_rises(m.raw_chunk_ver@, have, count);
    lemma_stale_bound(m.raw_chunk_ver@, have, count);
    assert forall|i: int| 0 <= i < parts.len() implies (#[trigger] parts[i]).len() <= stride by {
        assert(is_chunk(m, store, n, dim, places[i] as int, objects[i]@));
        lemma_chunk_len(n, dim, places[i] as int);
    }
    lemma_chunk_len(n, dim, c);
    lemma_with_objects(base, places, stride, parts, places.len() as int, c);
    stale_is_what_differs(m.raw_chunk_ver@, have, count, c);
    let from = c * stride;
    let len = chunk_len(n, dim, c);
    if places.contains(c as usize) {
        let j = choose|j: int| 0 <= j < places.len() && places[j] == c as usize;
        assert(is_chunk(m, store, n, dim, places[j] as int, objects[j]@));
        assert(parts[j] == objects[j]@);
        assert(r.subrange(from, from + parts[j].len()) == parts[j]);
    } else {
        assert forall|j: int| 0 <= j < places.len() implies (#[trigger] places[j]) != c by {
            if places[j] == c {
                assert(places.contains(c as usize));
            }
        }
        let old = file.subrange(from, from + len);
        assert(is_chunk(m, store, n, dim, c, old));
        assert forall|i: int| 0 <= i < len implies r.subrange(from, from + len)[i] == old[i] by {
            assert(r[from + i] == base[from + i]);
        }
        assert(r.subrange(from, from + len) =~= old);
    }
}

/// A chunk is no longer than the stride, and ends where the vectors do at the latest.
proof fn lemma_chunk_len(n: int, dim: int, c: int)
    requires
        0 < dim,
        0 <= n,
        0 <= c < chunk_count(n),
    ensures
        0 < chunk_len(n, dim, c) <= 4 * (RAW_CHUNK * dim),
        0 <= c * (4 * (RAW_CHUNK * dim)),
        c * (4 * (RAW_CHUNK * dim)) + chunk_len(n, dim, c) <= 4 * (n * dim),
        0 < 4 * (RAW_CHUNK * dim),
{
    let k = RAW_CHUNK as int;
    assert(c * k < n);
    assert(0 <= c * (4 * (k * dim)) && 0 < 4 * (k * dim) && c * (4 * (k * dim)) == 4 * ((c * k)
        * dim)) by (nonlinear_arith)
        requires
            0 <= c,
            0 < dim,
            0 < k,
    ;
    assert((c * k) * dim < n * dim) by (nonlinear_arith)
        requires
            c * k < n,
            0 < dim,
    ;
    assert((c + 1) * k == c * k + k) by (nonlinear_arith);
    assert((c * k + k) * dim == (c * k) * dim + k * dim) by (nonlinear_arith);
    if (c + 1) * k < n {
        assert((c * k + k) * dim <= n * dim) by (nonlinear_arith)
            requires
                c * k + k <= n,
                0 < dim,
        ;
    } else {
        assert(n * dim <= (c * k + k) * dim) by (nonlinear_arith)
            requires
                n <= c * k + k,
                0 < dim,
        ;
    }
}

/// Marks are not of the future.
pub open spec fn is_timely<'a, D: Distance>(index: &SPFresh<'a, D>) -> bool {
    forall|b: u32| #[trigger]
        index.dirty@.contains_key(b) ==> index.dirty@[b] <= index.write_seq
}

/// What the last snapshot stored stays good for the blocks that are not marked, whatever
/// is written: every write leaves its mark.
pub proof fn writes_keep_the_rest<'a, D: Distance>(
    before: &SPFresh<'a, D>,
    after: &SPFresh<'a, D>,
    store: Objects,
    m: &Manifest,
)
    requires
        after.marks_writes(before),
        after.block_cid@.len() <= u32::MAX,
        holds_blocks(before, store, m),
        m.block_ver@.len() <= before.block_cid@.len(),
    ensures
        holds_blocks(after, store, m),
        is_timely(before) && after.write_seq < u64::MAX ==> is_timely(after),
{
    reveal(SPFresh::marks_writes);
    let n = after.block_cid@.len() as int;
    let size = after.postings.size();
    assert forall|b: int| 0 <= b < n && !after.dirty@.contains_key(b as u32) implies #[trigger] fetched(
        store,
        resized(m.block_ver@, n),
        b,
        size,
    ) == after.postings.block(b) by {
        assert(after.stands(before, b as u32) || after.is_marked(before, b as u32));
        if b < before.block_cid@.len() {
            let old = resized(m.block_ver@, before.block_cid@.len() as int);
            assert(old[b] == resized(m.block_ver@, n)[b]);
            assert(fetched(store, old, b, size) == before.postings.block(b));
        }
    }
    if is_timely(before) && after.write_seq < u64::MAX {
        assert forall|b: u32| #[trigger] after.dirty@.contains_key(b) implies after.dirty@[b]
            <= after.write_seq by {
            assert(after.stands(before, b) || after.is_marked(before, b));
            if after.stands(before, b) {
                assert(before.dirty@.contains_key(b));
            }
        }
    }
}

/// Once a snapshot is noted, its objects hold the blocks of the index, but for those that
/// were written after it was taken.
pub proof fn finished_snapshot_holds<'a, D: Distance>(
    taken: &SPFresh<'a, D>,
    base: Option<&Manifest>,
    s: Snapshot,
    store: Objects,
    now: &SPFresh<'a, D>,
    after: &SPFresh<'a, D>,
)
    requires
        taken.wf(),
        is_timely(taken),
        taken.is_snapshot(base, s),
        base matches Some(m) ==> holds_blocks(taken, store, m),
        now.marks_writes(taken),
        now.write_seq < u64::MAX,
        now.block_cid@.len() <= u32::MAX,
        after.is_synced(now, s.blocks@, s.next_id),
    ensures
        holds_blocks(after, with_blocks(store, taken, s), &s.manifest),
        s.manifest.block_ver@.len() <= after.block_cid@.len(),
{
    reveal(SPFresh::marks_writes);
    let m = s.manifest;
    let objects = with_blocks(store, taken, s);
    let n = after.block_cid@.len() as int;
    let size = after.postings.size();
    assert forall|b: int| 0 <= b < m.block_ver@.len() implies (#[trigger] m.block_ver@[b])
        <= m.version by {
        if !stores_block(s.blocks@, b) && base is Some {
            let old = base->Some_0.block_ver@;
            if b < old.len() {
                assert(old[b] <= base->Some_0.version);
            }
        }
    }
    assert forall|b: int| 0 <= b < n && !after.dirty@.contains_key(b as u32) implies #[trigger] fetched(
        objects,
        resized(m.block_ver@, n),
        b,
        size,
    ) == after.postings.block(b) by {
        let x = b as u32;
        assert(now.stands(taken, x) || now.is_marked(taken, x));
        if now.dirty@.contains_key(x) {
            assert(s.blocks@.contains((x, now.dirty@[x])));
            let i = choose|i: int|
                0 <= i < s.blocks@.len() && s.blocks@[i] == (x, now.dirty@[x]);
            assert(s.blocks@[i].0 < taken.block_cid@.len());
            if taken.dirty@.contains_key(x) {
                assert(taken.dirty@[x] <= taken.write_seq);
            }
        }
        assert(now.stands(taken, x));
        if b < taken.block_cid@.len() {
            taken.snapshot_restores_blocks(base, s, store, b);
            assert(resized(m.block_ver@, n)[b] == m.block_ver@[b]);
        }
    }
}

/// Once a snapshot is noted, its objects hold the vectors that it was taken of, whatever
/// vectors were added since.
pub proof fn finished_snapshot_holds_chunks<'a, D: Distance>(
    taken: &SPFresh<'a, D>,
    base: Option<&Manifest>,
    s: Snapshot,
    store: Objects,
    now: &SPFresh<'a, D>,
    after: &SPFresh<'a, D>,
)
    requires
        taken.wf(),
        taken.is_snapshot(base, s),
        base matches Some(m) ==> holds_chunks(taken, store, m),
        now.stored(),
        now.dim == taken.dim,
        now.synced_id <= taken.next_id <= now.next_id,
        forall|id: int|
            0 <= id < taken.next_id ==> #[trigger] now.raw_at(id) == taken.raw_at(id),
        after.is_synced(now, s.blocks@, s.next_id),
    ensures
        holds_chunks(after, with_chunks(store, taken, s), &s.manifest),
{
    let m = s.manifest;
    let objects = with_chunks(store, taken, s);
    let d = taken.dim as int;
    let n = taken.next_id as int;
    assert forall|k: int| 0 <= k < m.raw_chunk_ver@.len() implies (#[trigger] m.raw_chunk_ver@[k])
        <= m.version by {
        if k < taken.first_chunk(base is None) && base is Some {
            let old = base->Some_0.raw_chunk_ver@;
            if k < old.len() {
                assert(old[k] <= base->Some_0.version);
            }
        }
    }
    assert forall|k: int| 0 <= k < after.first_chunk(false) implies k < m.raw_chunk_ver@.len()
        && #[trigger] objects(m.raw_chunk_ver@[k], k) == bytes::word_bytes(after.chunk(k)) by {
        assert((k + 1) * RAW_CHUNK <= n && 0 <= k < chunk_count(n));
        taken.snapshot_restores_chunks(base, s, store, k);
        let x = taken.chunk(k);
        let y = after.chunk(k);
        let from = k * RAW_CHUNK * d;
        let end = (k + 1) * RAW_CHUNK * d;
        assert(0 <= from <= end <= n * d <= now.next_id * d) by (nonlinear_arith)
            requires
                from == k * RAW_CHUNK * d,
                end == (k + 1) * RAW_CHUNK * d,
                (k + 1) * RAW_CHUNK <= n <= now.next_id,
                0 <= k,
                0 <= d,
        ;
        assert(x =~= taken.raw@.subrange(from, end));
        assert(y =~= now.raw@.subrange(from, end));
        assert forall|i: int| from <= i < end implies taken.raw@[i] == now.raw@[i] by {
            let id = i / d;
            assert(d > 0) by (nonlinear_arith)
                requires
                    0 <= i < n * d,
                    0 <= d,
            ;
            assert(0 <= id < n && id * d <= i < id * d + d && id * d + d <= n * d) by (
            nonlinear_arith)
                requires
                    id == i / d,
                    0 < d,
                    0 <= i < n * d,
            ;
            assert(now.raw_at(id) == taken.raw_at(id));
            assert(now.raw_at(id)[i - id * d] == now.raw@[i]);
            assert(taken.raw_at(id)[i - id * d] == taken.raw@[i]);
        }
        assert(x =~= y);
    }
}

/// The blocks and vectors that a snapshot leads to, laid out one after the other, are
/// those of the index.
#[verifier::rlimit(40)]
pub proof fn snapshot_restores<'a, D: Distance>(
    index: &SPFresh<'a, D>,
    base: Option<&Manifest>,
    s: Snapshot,
    block_store: Objects,
    chunk_store: Objects,
    blocks: Seq<u8>,
    raw: Seq<u32>,
)
    requires
        index.wf(),
        index.is_snapshot(base, s),
        base matches Some(m) ==> holds_blocks(index, block_store, m) && holds_chunks(
            index,
            chunk_store,
            m,
        ),
        blocks.len() == index.block_cid@.len() * index.postings.size(),
        forall|b: int|
            0 <= b < index.block_cid@.len() ==> #[trigger] blocks.subrange(
                b * index.postings.size(),
                b * index.postings.size() + index.postings.size(),
            ) == fetched(
                with_blocks(block_store, index, s),
                s.manifest.block_ver@,
                b,
                index.postings.size(),
            ),
        raw.len() == index.next_id * index.dim,
        forall|c: int|
            0 <= c < chunk_count(index.next_id as int) ==> bytes::word_bytes(
                #[trigger] chunk_in(raw, index.next_id as int, index.dim as int, c),
            ) == with_chunks(chunk_store, index, s)(s.manifest.raw_chunk_ver@[c], c),
    ensures
        blocks == index.postings.data@,
        raw == index.raw@,
{
    let size = index.postings.size();
    let n = index.block_cid@.len() as int;
    assert forall|i: int| 0 <= i < blocks.len() implies blocks[i] == index.postings.data@[i] by {
        let b = i / size;
        let j = i % size;
        assert(i == b * size + j && 0 <= j < size && 0 <= b < n) by (nonlinear_arith)
            requires
                b == i / size,
                j == i % size,
                0 < size,
                0 <= i < n * size,
        ;
        index.snapshot_restores_blocks(base, s, block_store, b);
        let part = blocks.subrange(b * size, b * size + size);
        index.postings.lemma_bounds(b);
        assert(part == index.postings.block(b));
        assert(part[j] == blocks[i]);
        assert(index.postings.block(b)[j] == index.postings.data@[i]);
    }
    assert(blocks =~= index.postings.data@);
    let d = index.dim as int;
    let k = index.next_id as int;
    assert forall|i: int| 0 <= i < raw.len() implies raw[i] == index.raw@[i] by {
        let id = i / d;
        let c = id / (RAW_CHUNK as int);
        assert(d > 0) by (nonlinear_arith)
            requires
                0 <= i < k * d,
                0 <= d,
        ;
        assert(0 <= id < k && id * d <= i < (id + 1) * d) by (nonlinear_arith)
            requires
                id == i / d,
                0 < d,
                0 <= i < k * d,
        ;
        assert(c * RAW_CHUNK <= id < (c + 1) * RAW_CHUNK && 0 <= c < chunk_count(k));
        index.snapshot_restores_chunks(base, s, chunk_store, c);
        let x = chunk_in(raw, k, d, c);
        let y = index.chunk(c);
        assert(y == chunk_in(index.raw@, k, d, c));
        let none = Seq::<u8>::empty();
        bytes::lemma_words_of_word_bytes(none, x, none);
        bytes::lemma_words_of_word_bytes(none, y, none);
        bytes::lemma_word_bytes_len(x);
        bytes::lemma_word_bytes_len(y);
        assert(none + bytes::word_bytes(x) + none =~= none + bytes::word_bytes(y) + none);
        assert(x == y);
        let from = c * RAW_CHUNK * d;
        let end = if (c + 1) * RAW_CHUNK < k {
            (c + 1) * RAW_CHUNK
        } else {
            k
        };
        assert(from <= i < end * d <= k * d && 0 <= from) by (nonlinear_arith)
            requires
                from == c * RAW_CHUNK * d,
                0 <= c,
                c * RAW_CHUNK <= id,
                id + 1 <= end <= k,
                id * d <= i < (id + 1) * d,
                0 < d,
        ;
        assert(x[i - from] == raw[i]);
        assert(y[i - from] == index.raw@[i]);
    }
    assert(raw =~= index.raw@);
}

} // verus!
