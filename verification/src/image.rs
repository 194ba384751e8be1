//! An incremental index in bytes.
use crate::bytes;
use crate::delta::DeltaLayer;
use crate::error::DiskAnnError;
use crate::error::Fault;
use crate::filtered;
use crate::incremental::Compaction;
use crate::incremental::IncrementalConfig;
use crate::incremental::IncrementalDiskANN;
use crate::incremental::QuantizerKind;
use crate::index;
use crate::index::DiskANN;
use crate::index::Metadata;
use crate::metric;
use crate::metric::Distance;
use crate::quantizer::QuantizerState;
use std::collections::HashSet;
use vstd::prelude::*;

verus! {

/// The first word of an image: "INCR".
pub const INCR_MAGIC: u32 = 0x494e_4352;

/// The version of images that is written, and the only one that is read.
pub const INCR_FORMAT_VERSION: u32 = 1;

// What stands at the start of bytes, with the bytes after it.
pub open spec fn p_byte(s: Seq<u8>) -> Option<(u8, Seq<u8>)> {
    if s.len() >= 1 {
        Some((s[0], s.skip(1)))
    } else {
        None
    }
}

pub open spec fn p_word(s: Seq<u8>) -> Option<(u32, Seq<u8>)> {
    if s.len() >= 4 {
        Some((bytes::word_at(s, 0), s.skip(4)))
    } else {
        None
    }
}

pub open spec fn p_long(s: Seq<u8>) -> Option<(u64, Seq<u8>)> {
    if s.len() >= 8 {
        Some((bytes::long_at(s, 0), s.skip(8)))
    } else {
        None
    }
}

/// A number of things. More than a machine word can count are not there.
pub open spec fn p_size(s: Seq<u8>) -> Option<(usize, Seq<u8>)> {
    if s.len() >= 8 && bytes::long_at(s, 0) <= usize::MAX {
        Some((bytes::long_at(s, 0) as usize, s.skip(8)))
    } else {
        None
    }
}

pub open spec fn p_bytes(s: Seq<u8>, n: int) -> Option<(Seq<u8>, Seq<u8>)> {
    if s.len() >= n {
        Some((s.take(n), s.skip(n)))
    } else {
        None
    }
}

pub open spec fn p_words(s: Seq<u8>, n: int) -> Option<(Seq<u32>, Seq<u8>)> {
    if s.len() >= 4 * n {
        Some((bytes::words_at(s, 0, n), s.skip(4 * n)))
    } else {
        None
    }
}

pub open spec fn p_longs(s: Seq<u8>, n: int) -> Option<(Seq<u64>, Seq<u8>)> {
    if s.len() >= 8 * n {
        Some((bytes::longs_at(s, 0, n), s.skip(8 * n)))
    } else {
        None
    }
}

/// Rows of 32-bit numbers, all of one width.
pub open spec fn p_word_rows(s: Seq<u8>, n: int, width: int) -> Option<(Seq<Seq<u32>>, Seq<u8>)>
    decreases n,
{
    if n <= 0 {
        Some((Seq::empty(), s))
    } else {
        match p_word_rows(s, n - 1, width) {
            Some((rows, rest)) => match p_words(rest, width) {
                Some((row, rest)) => Some((rows.push(row), rest)),
                None => None,
            },
            None => None,
        }
    }
}

/// Rows of 32-bit numbers, each behind its width.
pub open spec fn p_graph(s: Seq<u8>, n: int) -> Option<(Seq<Seq<u32>>, Seq<u8>)>
    decreases n,
{
    if n <= 0 {
        Some((Seq::empty(), s))
    } else {
        match p_graph(s, n - 1) {
            Some((rows, rest)) => match p_word(rest) {
                Some((width, rest)) => match p_words(rest, width as int) {
                    Some((row, rest)) => Some((rows.push(row), rest)),
                    None => None,
                },
                None => None,
            },
            None => None,
        }
    }
}

/// Rows of 64-bit numbers, all of one width.
pub open spec fn p_long_rows(s: Seq<u8>, n: int, width: int) -> Option<(Seq<Seq<u64>>, Seq<u8>)>
    decreases n,
{
    if n <= 0 {
        Some((Seq::empty(), s))
    } else {
        match p_long_rows(s, n - 1, width) {
            Some((rows, rest)) => match p_longs(rest, width) {
                Some((row, rest)) => Some((rows.push(row), rest)),
                None => None,
            },
            None => None,
        }
    }
}

proof fn lemma_no_word_rows(s: Seq<u8>, i: int, n: int, width: int)
    requires
        0 <= i <= n,
        p_word_rows(s, i, width) is None,
    ensures
        p_word_rows(s, n, width) is None,
    decreases n,
{
    if i < n {
        lemma_no_word_rows(s, i, n - 1, width);
    }
}

proof fn lemma_no_graph(s: Seq<u8>, i: int, n: int)
    requires
        0 <= i <= n,
        p_graph(s, i) is None,
    ensures
        p_graph(s, n) is None,
    decreases n,
{
    if i < n {
        lemma_no_graph(s, i, n - 1);
    }
}

proof fn lemma_no_long_rows(s: Seq<u8>, i: int, n: int, width: int)
    requires
        0 <= i <= n,
        p_long_rows(s, i, width) is None,
    ensures
        p_long_rows(s, n, width) is None,
    decreases n,
{
    if i < n {
        lemma_no_long_rows(s, i, n - 1, width);
    }
}

/// Rows of labels as sequences.
pub open spec fn long_rows(rows: Seq<Vec<u64>>) -> Seq<Seq<u64>> {
    rows.map_values(|row: Vec<u64>| row@)
}

/// A place in bytes.
pub struct Reader<'a> {
    pub data: &'a [u8],
    pub pos: usize,
}

impl<'a> Reader<'a> {
    /// What is still to be read.
    pub open spec fn rest(&self) -> Seq<u8> {
        self.data@.skip(self.pos as int)
    }

    pub open spec fn wf(&self) -> bool {
        self.pos <= self.data@.len()
    }

    fn left(&self) -> (r: usize)
        requires
            self.wf(),
        ensures
            r == self.rest().len(),
    {
        self.data.len() - self.pos
    }

    fn skip(&mut self, n: usize)
        requires
            old(self).wf(),
            n <= old(self).rest().len(),
        ensures
            final(self).wf(),
            final(self).rest() == old(self).rest().skip(n as int),
    {
        let len: usize = self.data.len();
        self.pos = self.pos + n;
        assert(self.rest() =~= old(self).rest().skip(n as int));
    }

    fn byte(&mut self) -> (r: Option<u8>)
        requires
            old(self).wf(),
        ensures
            final(self).wf(),
            match r {
                Some(v) => p_byte(old(self).rest()) == Some((v, final(self).rest())),
                None => p_byte(old(self).rest()) is None,
            },
    {
        if self.left() < 1 {
            return None;
        }
        let v: u8 = self.data[self.pos];
        self.skip(1);
        Some(v)
    }

    fn word(&mut self) -> (r: Option<u32>)
        requires
            old(self).wf(),
        ensures
            final(self).wf(),
            match r {
                Some(v) => p_word(old(self).rest()) == Some((v, final(self).rest())),
                None => p_word(old(self).rest()) is None,
            },
    {
        if self.left() < 4 {
            return None;
        }
        let v: u32 = bytes::read_u32(self.data, self.pos);
        assert(self.rest().subrange(0, 4) =~= self.data@.subrange(self.pos as int, self.pos + 4));
        self.skip(4);
        Some(v)
    }

    fn long(&mut self) -> (r: Option<u64>)
        requires
            old(self).wf(),
        ensures
            final(self).wf(),
            match r {
                Some(v) => p_long(old(self).rest()) == Some((v, final(self).rest())),
                None => p_long(old(self).rest()) is None,
            },
    {
        if self.left() < 8 {
            return None;
        }
        let v: u64 = bytes::read_u64(self.data, self.pos);
        assert(self.rest().subrange(0, 8) =~= self.data@.subrange(self.pos as int, self.pos + 8));
        self.skip(8);
        Some(v)
    }

    fn size(&mut self) -> (r: Option<usize>)
        requires
            old(self).wf(),
        ensures
            final(self).wf(),
            match r {
                Some(v) => p_size(old(self).rest()) == Some((v, final(self).rest())),
                None => p_size(old(self).rest()) is None,
            },
    {
        match self.long() {
            Some(v) => if v <= usize::MAX as u64 {
                Some(v as usize)
            } else {
                None
            },
            None => None,
        }
    }

    fn bytes(&mut self, n: usize) -> (r: Option<Vec<u8>>)
        requires
            old(self).wf(),
        ensures
            final(self).wf(),
            match r {
                Some(v) => p_bytes(old(self).rest(), n as int) == Some((v@, final(self).rest())),
                None => p_bytes(old(self).rest(), n as int) is None,
            },
    {
        let len: usize = self.data.len();
        if self.left() < n {
            return None;
        }
        let mut v: Vec<u8> = Vec::new();
        bytes::push_slice(
            &mut v,
            vstd::slice::slice_subrange(self.data, self.pos, self.pos + n),
        );
        assert(v@ =~= self.rest().take(n as int));
        self.skip(n);
        Some(v)
    }

    fn words(&mut self, n: usize) -> (r: Option<Vec<u32>>)
        requires
            old(self).wf(),
        ensures
            final(self).wf(),
            match r {
                Some(v) => p_words(old(self).rest(), n as int) == Some((v@, final(self).rest())),
                None => p_words(old(self).rest(), n as int) is None,
            },
    {
        if self.left() / 4 < n {
            return None;
        }
        let v = bytes::read_words(self.data, self.pos, n);
        proof {
            let want = bytes::words_at(self.rest(), 0, n as int);
            assert forall|c: int| 0 <= c < n implies v@[c] == want[c] by {
                assert(self.rest().subrange(4 * c, 4 * c + 4) =~= self.data@.subrange(
                    self.pos + 4 * c,
                    self.pos + 4 * c + 4,
                ));
            }
            assert(v@ =~= want);
        }
        self.skip(4 * n);
        Some(v)
    }

    fn longs(&mut self, n: usize) -> (r: Option<Vec<u64>>)
        requires
            old(self).wf(),
        ensures
            final(self).wf(),
            match r {
                Some(v) => p_longs(old(self).rest(), n as int) == Some((v@, final(self).rest())),
                None => p_longs(old(self).rest(), n as int) is None,
            },
    {
        if self.left() / 8 < n {
            return None;
        }
        let v = bytes::read_longs(self.data, self.pos, n);
        proof {
            let want = bytes::longs_at(self.rest(), 0, n as int);
            assert forall|c: int| 0 <= c < n implies v@[c] == want[c] by {
                assert(self.rest().subrange(8 * c, 8 * c + 8) =~= self.data@.subrange(
                    self.pos + 8 * c,
                    self.pos + 8 * c + 8,
                ));
            }
            assert(v@ =~= want);
        }
        self.skip(8 * n);
        Some(v)
    }

    fn word_rows(&mut self, n: usize, width: usize) -> (r: Option<Vec<Vec<u32>>>)
        requires
            old(self).wf(),
        ensures
            final(self).wf(),
            match r {
                Some(v) => p_word_rows(old(self).rest(), n as int, width as int) == Some(
                    (metric::rows(v@), final(self).rest()),
                ),
                None => p_word_rows(old(self).rest(), n as int, width as int) is None,
            },
    {
        let ghost s = self.rest();
        let mut v: Vec<Vec<u32>> = Vec::new();
        let mut i: usize = 0;
        assert(metric::rows(v@) =~= Seq::empty());
        while i < n
            invariant
                i <= n,
                self.wf(),
                s == old(self).rest(),
                p_word_rows(s, i as int, width as int) == Some((metric::rows(v@), self.rest())),
            decreases n - i,
        {
            match self.words(width) {
                Some(row) => {
                    let ghost before = metric::rows(v@);
                    v.push(row);
                    assert(metric::rows(v@) =~= before.push(row@));
                },
                None => {
                    proof {
                        lemma_no_word_rows(s, i + 1, n as int, width as int);
                    }
                    return None;
                },
            }
            i = i + 1;
        }
        Some(v)
    }

    fn graph(&mut self, n: usize) -> (r: Option<Vec<Vec<u32>>>)
        requires
            old(self).wf(),
        ensures
            final(self).wf(),
            match r {
                Some(v) => p_graph(old(self).rest(), n as int) == Some(
                    (metric::rows(v@), final(self).rest()),
                ),
                None => p_graph(old(self).rest(), n as int) is None,
            },
    {
        let ghost s = self.rest();
        let mut v: Vec<Vec<u32>> = Vec::new();
        let mut i: usize = 0;
        assert(metric::rows(v@) =~= Seq::empty());
        while i < n
            invariant
                i <= n,
                self.wf(),
                s == old(self).rest(),
                p_graph(s, i as int) == Some((metric::rows(v@), self.rest())),
            decreases n - i,
        {
            let row: Option<Vec<u32>> = match self.word() {
                Some(width) => self.words(width as usize),
                None => None,
            };
            match row {
                Some(row) => {
                    let ghost before = metric::rows(v@);
                    v.push(row);
                    assert(metric::rows(v@) =~= before.push(row@));
                },
                None => {
                    proof {
                        lemma_no_graph(s, i + 1, n as int);
                    }
                    return None;
                },
            }
            i = i + 1;
        }
        Some(v)
    }

    fn long_rows(&mut self, n: usize, width: usize) -> (r: Option<Vec<Vec<u64>>>)
        requires
            old(self).wf(),
        ensures
            final(self).wf(),
            match r {
                Some(v) => p_long_rows(old(self).rest(), n as int, width as int) == Some(
                    (long_rows(v@), final(self).rest()),
                ),
                None => p_long_rows(old(self).rest(), n as int, width as int) is None,
            },
    {
        let ghost s = self.rest();
        let mut v: Vec<Vec<u64>> = Vec::new();
        let mut i: usize = 0;
        assert(long_rows(v@) =~= Seq::empty());
        while i < n
            invariant
                i <= n,
                self.wf(),
                s == old(self).rest(),
                p_long_rows(s, i as int, width as int) == Some((long_rows(v@), self.rest())),
            decreases n - i,
        {
            match self.longs(width) {
                Some(row) => {
                    let ghost before = long_rows(v@);
                    v.push(row);
                    assert(long_rows(v@) =~= before.push(row@));
                },
                None => {
                    proof {
                        lemma_no_long_rows(s, i + 1, n as int, width as int);
                    }
                    return None;
                },
            }
            i = i + 1;
        }
        Some(v)
    }
}

/// What an image holds of added and deleted vectors.
pub struct Body {
    pub dim: usize,
    pub vectors: Seq<Seq<u32>>,
    pub graph: Seq<Seq<u32>>,
    /// The entry point, in two's complement; negative when there is none.
    pub entry: u64,
    pub max_degree: usize,
    pub tombstones: Seq<u64>,
}

/// What an image holds of labels.
pub struct Labels {
    pub fields: usize,
    pub base: Seq<Seq<u64>>,
    pub delta: Seq<Seq<u64>>,
}

/// What an image holds of a quantizer.
pub struct CodeHead {
    pub code_size: usize,
    pub rerank_size: usize,
    /// The quantizer's record.
    pub record: Seq<u8>,
}

/// The entry point that a number stands for.
pub open spec fn entry_of(v: u64) -> Option<u32> {
    if v < 0x8000_0000_0000_0000 {
        Some((v % 0x1_0000_0000) as u32)
    } else {
        None
    }
}

/// The number that stands for an entry point.
pub open spec fn entry_word(e: Option<u32>) -> u64 {
    match e {
        Some(e) => e as u64,
        None => u64::MAX,
    }
}

/// The bytes of the base, behind a byte that is 1 if there is one.
pub open spec fn p_base(s: Seq<u8>) -> Option<(Option<Seq<u8>>, Seq<u8>)> {
    match p_byte(s) {
        Some((flag, s)) => if flag == 1 {
            match p_size(s) {
                Some((n, s)) => match p_bytes(s, n as int) {
                    Some((b, s)) => Some((Some(b), s)),
                    None => None,
                },
                None => None,
            }
        } else {
            Some((None, s))
        },
        None => None,
    }
}

/// Added vectors: their number of components, they themselves, and their graph.
pub open spec fn p_delta(s: Seq<u8>) -> Option<((usize, Seq<Seq<u32>>, Seq<Seq<u32>>), Seq<u8>)> {
    match p_size(s) {
        Some((dim, s)) => match p_size(s) {
            Some((n, s)) => match p_word_rows(s, n as int, dim as int) {
                Some((vectors, s)) => match p_size(s) {
                    Some((n, s)) => match p_graph(s, n as int) {
                        Some((graph, s)) => Some(((dim, vectors, graph), s)),
                        None => None,
                    },
                    None => None,
                },
                None => None,
            },
            None => None,
        },
        None => None,
    }
}

/// Added vectors, and what was deleted.
pub open spec fn p_body(s: Seq<u8>) -> Option<(Body, Seq<u8>)> {
    match p_delta(s) {
        Some(((dim, vectors, graph), s)) => match p_long(s) {
            Some((entry, s)) => match p_size(s) {
                Some((max_degree, s)) => match p_size(s) {
                    Some((n, s)) => match p_longs(s, n as int) {
                        Some((tombstones, s)) => Some(
                            (Body { dim, vectors, graph, entry, max_degree, tombstones }, s),
                        ),
                        None => None,
                    },
                    None => None,
                },
                None => None,
            },
            None => None,
        },
        None => None,
    }
}

/// Labels, behind a byte that is 1 if there are any.
pub open spec fn p_labels(s: Seq<u8>) -> Option<(Option<Labels>, Seq<u8>)> {
    match p_byte(s) {
        Some((flag, s)) => if flag == 1 {
            match p_size(s) {
                Some((fields, s)) => match p_size(s) {
                    Some((n, s)) => match p_long_rows(s, n as int, fields as int) {
                        Some((base, s)) => match p_size(s) {
                            Some((n, s)) => match p_long_rows(s, n as int, fields as int) {
                                Some((delta, s)) => Some(
                                    (Some(Labels { fields, base, delta }), s),
                                ),
                                None => None,
                            },
                            None => None,
                        },
                        None => None,
                    },
                    None => None,
                },
                None => None,
            }
        } else {
            Some((None, s))
        },
        None => None,
    }
}

/// A quantizer's record, behind a byte that is 1 if there is one.
pub open spec fn p_head(s: Seq<u8>) -> Option<(Option<CodeHead>, Seq<u8>)> {
    match p_byte(s) {
        Some((flag, s)) => if flag == 1 {
            match p_size(s) {
                Some((code_size, s)) => match p_size(s) {
                    Some((rerank_size, s)) => match p_size(s) {
                        Some((n, s)) => match p_bytes(s, n as int) {
                            Some((record, s)) => Some(
                                (Some(CodeHead { code_size, rerank_size, record }), s),
                            ),
                            None => None,
                        },
                        None => None,
                    },
                    None => None,
                },
                None => None,
            }
        } else {
            Some((None, s))
        },
        None => None,
    }
}

/// Codes, behind their length.
pub open spec fn p_codes(s: Seq<u8>) -> Option<(Seq<u8>, Seq<u8>)> {
    match p_size(s) {
        Some((n, s)) => p_bytes(s, n as int),
        None => None,
    }
}

fn set_of(ids: &Vec<u64>) -> (r: HashSet<u64>)
    ensures
        r@ == ids@.to_set(),
{
    broadcast use vstd::std_specs::hash::group_hash_axioms;

    let mut r: HashSet<u64> = HashSet::new();
    let mut i: usize = 0;
    assert(r@ =~= ids@.take(0).to_set());
    while i < ids.len()
        invariant
            i <= ids@.len(),
            r@ == ids@.take(i as int).to_set(),
        decreases ids@.len() - i,
    {
        broadcast use vstd::std_specs::hash::group_hash_axioms;

        r.insert(ids[i]);
        proof {
            let a = ids@.take(i as int);
            let b = ids@.take(i + 1);
            assert(b =~= a.push(ids@[i as int]));
            assert forall|id: u64| #[trigger] b.to_set().contains(id) <==> a.to_set().contains(id)
                || id == ids@[i as int] by {
                if a.contains(id) {
                    let m = choose|m: int| 0 <= m < a.len() && a[m] == id;
                    assert(b[m] == id);
                }
                assert(b[i as int] == ids@[i as int]);
            }
            assert(r@ =~= b.to_set());
        }
        i = i + 1;
    }
    assert(ids@.take(ids@.len() as int) =~= ids@);
    r
}

struct RawBody {
    dim: usize,
    vectors: Vec<Vec<u32>>,
    graph: Vec<Vec<u32>>,
    entry: u64,
    max_degree: usize,
    tombstones: Vec<u64>,
}

impl RawBody {
    spec fn view(&self) -> Body {
        Body {
            dim: self.dim,
            vectors: metric::rows(self.vectors@),
            graph: metric::rows(self.graph@),
            entry: self.entry,
            max_degree: self.max_degree,
            tombstones: self.tombstones@,
        }
    }
}

struct RawLabels {
    fields: usize,
    base: Vec<Vec<u64>>,
    delta: Vec<Vec<u64>>,
}

impl RawLabels {
    spec fn view(&self) -> Labels {
        Labels { fields: self.fields, base: long_rows(self.base@), delta: long_rows(self.delta@) }
    }
}

struct RawHead {
    code_size: usize,
    rerank_size: usize,
    record: Vec<u8>,
}

impl RawHead {
    spec fn view(&self) -> CodeHead {
        CodeHead {
            code_size: self.code_size,
            rerank_size: self.rerank_size,
            record: self.record@,
        }
    }
}

impl<'a> Reader<'a> {
    fn base(&mut self) -> (r: Option<Option<Vec<u8>>>)
        requires
            old(self).wf(),
        ensures
            final(self).wf(),
            match r {
                Some(Some(b)) => p_base(old(self).rest()) == Some((Some(b@), final(self).rest())),
                Some(None) => p_base(old(self).rest()) == Some(
                    (None::<Seq<u8>>, final(self).rest()),
                ),
                None => p_base(old(self).rest()) is None,
            },
    {
        let flag: u8 = self.byte()?;
        if flag == 1 {
            let n: usize = self.size()?;
            let b = self.bytes(n)?;
            Some(Some(b))
        } else {
            Some(None)
        }
    }

    fn body(&mut self) -> (r: Option<RawBody>)
        requires
            old(self).wf(),
        ensures
            final(self).wf(),
            match r {
                Some(b) => p_body(old(self).rest()) == Some((b@, final(self).rest())),
                None => p_body(old(self).rest()) is None,
            },
    {
        let ghost s = self.rest();
        let dim: usize = self.size()?;
        let n: usize = self.size()?;
        let vectors = self.word_rows(n, dim)?;
        let n: usize = self.size()?;
        let graph = self.graph(n)?;
        assert(p_delta(s) == Some(
            ((dim, metric::rows(vectors@), metric::rows(graph@)), self.rest()),
        ));
        let entry: u64 = self.long()?;
        let max_degree: usize = self.size()?;
        let n: usize = self.size()?;
        let tombstones = self.longs(n)?;
        Some(RawBody { dim, vectors, graph, entry, max_degree, tombstones })
    }

    fn labels(&mut self) -> (r: Option<Option<RawLabels>>)
        requires
            old(self).wf(),
        ensures
            final(self).wf(),
            match r {
                Some(Some(l)) => p_labels(old(self).rest()) == Some(
                    (Some(l@), final(self).rest()),
                ),
                Some(None) => p_labels(old(self).rest()) == Some(
                    (None::<Labels>, final(self).rest()),
                ),
                None => p_labels(old(self).rest()) is None,
            },
    {
        let flag: u8 = self.byte()?;
        if flag == 1 {
            let fields: usize = self.size()?;
            let n: usize = self.size()?;
            let base = self.long_rows(n, fields)?;
            let n: usize = self.size()?;
            let delta = self.long_rows(n, fields)?;
            Some(Some(RawLabels { fields, base, delta }))
        } else {
            Some(None)
        }
    }

    fn head(&mut self) -> (r: Option<Option<RawHead>>)
        requires
            old(self).wf(),
        ensures
            final(self).wf(),
            match r {
                Some(Some(h)) => p_head(old(self).rest()) == Some((Some(h@), final(self).rest())),
                Some(None) => p_head(old(self).rest()) == Some(
                    (None::<CodeHead>, final(self).rest()),
                ),
                None => p_head(old(self).rest()) is None,
            },
    {
        let flag: u8 = self.byte()?;
        if flag == 1 {
            let code_size: usize = self.size()?;
            let rerank_size: usize = self.size()?;
            let n: usize = self.size()?;
            let record = self.bytes(n)?;
            Some(Some(RawHead { code_size, rerank_size, record }))
        } else {
            Some(None)
        }
    }

    fn codes(&mut self) -> (r: Option<Vec<u8>>)
        requires
            old(self).wf(),
        ensures
            final(self).wf(),
            match r {
                Some(c) => p_codes(old(self).rest()) == Some((c@, final(self).rest())),
                None => p_codes(old(self).rest()) is None,
            },
    {
        let n: usize = self.size()?;
        self.bytes(n)
    }
}

/// What an image holds of the quantizer and the codes, as an index has it.
pub struct Coding {
    pub quantizer: QuantizerState,
    pub code_size: usize,
    pub rerank_size: usize,
    pub codes: Seq<u8>,
}

pub open spec fn part_view(part: &Option<Vec<u8>>) -> Option<Seq<u8>> {
    match part {
        Some(b) => Some(b@),
        None => None,
    }
}

impl<'a, D: Distance> IncrementalDiskANN<'a, D> {
    /// The index has the parts of an image.
    pub open spec fn has_parts(
        &self,
        base: Option<DiskANN<'a, D>>,
        body: Body,
        labels: Option<Labels>,
        coding: Option<Coding>,
        dist: D,
        config: IncrementalConfig,
    ) -> bool {
        &&& self.base == base
        &&& self.dist == dist
        &&& self.config == config
        &&& self.dim == body.dim
        &&& metric::rows(self.delta.vectors@) == body.vectors
        &&& metric::rows(self.delta.graph@) == body.graph
        &&& self.delta.entry_point == entry_of(body.entry)
        &&& self.delta.max_degree == body.max_degree
        &&& self.tombstones@ == body.tombstones.to_set()
        &&& match labels {
            Some(l) => {
                &&& self.base_labels is Some
                &&& long_rows(self.base_labels->0@) == l.base
                &&& long_rows(self.delta_labels@) == l.delta
                &&& self.num_label_fields == l.fields
            },
            None => {
                &&& self.base_labels is None
                &&& self.delta_labels@.len() == 0
                &&& self.num_label_fields == 0
            },
        }
        &&& match coding {
            Some(c) => {
                &&& self.quantizer == Some(c.quantizer)
                &&& self.code_size == c.code_size
                &&& self.rerank_size == c.rerank_size
                &&& if c.codes.len() > 0 {
                    self.base_codes is Some && self.base_codes->0@ == c.codes
                } else {
                    self.base_codes is None
                }
            },
            None => {
                &&& self.quantizer is None
                &&& self.base_codes is None
                &&& self.code_size == 0
                &&& self.rerank_size == 0
            },
        }
    }

    /// Loading the base of an image gives `base`.
    pub open spec fn base_loaded(
        part: Option<Seq<u8>>,
        dist: D,
        header: Result<Metadata, DiskAnnError>,
        base: Result<Option<DiskANN<'a, D>>, DiskAnnError>,
    ) -> bool {
        match part {
            Some(b) => {
                &&& index::parsed(b, header)
                &&& DiskANN::loaded(
                    header,
                    b,
                    dist,
                    match base {
                        Ok(base) => Ok(base->0),
                        Err(e) => Err(e),
                    },
                )
                &&& base matches Ok(base) ==> base is Some
            },
            None => base is Ok && base->Ok_0 is None,
        }
    }

    /// Loading an image of the older layout gives `r`.
    pub open spec fn legacy_loaded(
        s: Seq<u8>,
        dist: D,
        config: IncrementalConfig,
        header: Result<Metadata, DiskAnnError>,
        base: Result<Option<DiskANN<'a, D>>, DiskAnnError>,
        r: Result<Self, DiskAnnError>,
    ) -> bool {
        let cut = DiskAnnError::IndexError(Fault::IncrementalTruncated);
        match p_base(s) {
            None => r is Err && r->Err_0 == cut,
            Some((part, s)) => {
                &&& Self::base_loaded(part, dist, header, base)
                &&& match base {
                    Err(e) => r is Err && r->Err_0 == e,
                    Ok(base) => match p_body(s) {
                        None => r is Err && r->Err_0 == cut,
                        Some((body, _)) => r is Ok && r->Ok_0.has_parts(
                            base,
                            body,
                            None,
                            None,
                            dist,
                            config,
                        ),
                    },
                }
            },
        }
    }

    /// Loading the quantizer and the codes at the end of an image, after its other parts,
    /// gives `r`.
    pub open spec fn coding_loaded(
        s: Seq<u8>,
        base: Option<DiskANN<'a, D>>,
        body: Body,
        labels: Option<Labels>,
        dist: D,
        config: IncrementalConfig,
        state: Result<QuantizerState, DiskAnnError>,
        r: Result<Self, DiskAnnError>,
    ) -> bool {
        let cut = DiskAnnError::IndexError(Fault::IncrementalTruncated);
        match p_head(s) {
            None => r is Err && r->Err_0 == cut,
            Some((None, _)) => r is Ok && r->Ok_0.has_parts(
                base,
                body,
                labels,
                None,
                dist,
                config,
            ),
            Some((Some(head), s)) => {
                &&& QuantizerState::read_as(head.record, state)
                &&& match state {
                    Err(e) => r is Err && r->Err_0 == e,
                    Ok(quantizer) => match p_codes(s) {
                        None => r is Err && r->Err_0 == cut,
                        Some((codes, _)) => r is Ok && r->Ok_0.has_parts(
                            base,
                            body,
                            labels,
                            Some(
                                Coding {
                                    quantizer,
                                    code_size: head.code_size,
                                    rerank_size: head.rerank_size,
                                    codes,
                                },
                            ),
                            dist,
                            config,
                        ),
                    },
                }
            },
        }
    }

    /// Loading what follows the magic word and the version of an image gives `r`.
    pub open spec fn parts_loaded(
        s: Seq<u8>,
        dist: D,
        config: IncrementalConfig,
        header: Result<Metadata, DiskAnnError>,
        base: Result<Option<DiskANN<'a, D>>, DiskAnnError>,
        state: Result<QuantizerState, DiskAnnError>,
        r: Result<Self, DiskAnnError>,
    ) -> bool {
        let cut = DiskAnnError::IndexError(Fault::IncrementalTruncated);
        match p_base(s) {
            None => r is Err && r->Err_0 == cut,
            Some((part, s)) => {
                &&& Self::base_loaded(part, dist, header, base)
                &&& match base {
                    Err(e) => r is Err && r->Err_0 == e,
                    Ok(base) => match p_body(s) {
                        None => r is Err && r->Err_0 == cut,
                        Some((body, s)) => match p_labels(s) {
                            None => r is Err && r->Err_0 == cut,
                            Some((labels, s)) => Self::coding_loaded(
                                s,
                                base,
                                body,
                                labels,
                                dist,
                                config,
                                state,
                                r,
                            ),
                        },
                    },
                }
            },
        }
    }

    /// Loading an image gives `r`.
    pub open spec fn image_loaded(
        b: Seq<u8>,
        dist: D,
        config: IncrementalConfig,
        header: Result<Metadata, DiskAnnError>,
        base: Result<Option<DiskANN<'a, D>>, DiskAnnError>,
        state: Result<QuantizerState, DiskAnnError>,
        r: Result<Self, DiskAnnError>,
    ) -> bool {
        if b.len() < 4 {
            r is Err && r->Err_0 == DiskAnnError::IndexError(Fault::IncrementalTooSmall)
        } else if bytes::word_at(b, 0) != INCR_MAGIC {
            Self::legacy_loaded(b, dist, config, header, base, r)
        } else if b.len() < 8 {
            r is Err && r->Err_0 == DiskAnnError::IndexError(Fault::IncrementalTruncated)
        } else if bytes::word_at(b, 4) != INCR_FORMAT_VERSION {
            r is Err && r->Err_0 == DiskAnnError::IndexError(
                Fault::IncrementalVersion { version: bytes::word_at(b, 4) },
            )
        } else {
            Self::parts_loaded(b.skip(8), dist, config, header, base, state, r)
        }
    }

    fn load_base(part: Option<Vec<u8>>, dist: D) -> (base: Result<
        Option<DiskANN<'a, D>>,
        DiskAnnError,
    >)
        ensures
            exists|header: Result<Metadata, DiskAnnError>| #[trigger]
                Self::base_loaded(
                    part_view(&part),
                    dist,
                    header,
                    base,
                ),
    {
        match part {
            Some(b) => {
                let ghost s = b@;
                let loaded = DiskANN::from_bytes(b, dist);
                let ghost kept = loaded;
                let ghost header = choose|header: Result<Metadata, DiskAnnError>| #[trigger]
                    index::parsed(s, header) && DiskANN::loaded(header, s, dist, kept);
                match loaded {
                    Ok(index) => {
                        let base: Result<Option<DiskANN<'a, D>>, DiskAnnError> = Ok(Some(index));
                        assert(Self::base_loaded(Some(s), dist, header, base));
                        base
                    },
                    Err(e) => {
                        let base: Result<Option<DiskANN<'a, D>>, DiskAnnError> = Err(e);
                        assert(Self::base_loaded(Some(s), dist, header, base));
                        base
                    },
                }
            },
            None => {
                let base: Result<Option<DiskANN<'a, D>>, DiskAnnError> = Ok(None);
                proof {
                    assert(Self::base_loaded(None, dist, arbitrary(), base));
                }
                base
            },
        }
    }

    fn with_parts(
        base: Option<DiskANN<'a, D>>,
        body: RawBody,
        labels: Option<RawLabels>,
        dist: D,
        config: IncrementalConfig,
    ) -> (r: Self)
        ensures
            r.has_parts(
                base,
                body@,
                match labels {
                    Some(l) => Some(l@),
                    None => None,
                },
                None,
                dist,
                config,
            ),
    {
        let entry_point: Option<u32> = if body.entry < 0x8000_0000_0000_0000 {
            Some((body.entry % 0x1_0000_0000) as u32)
        } else {
            None
        };
        let (base_labels, delta_labels, num_label_fields): (
            Option<Vec<Vec<u64>>>,
            Vec<Vec<u64>>,
            usize,
        ) = match labels {
            Some(l) => (Some(l.base), l.delta, l.fields),
            None => (None, Vec::new(), 0),
        };
        IncrementalDiskANN {
            base,
            delta: DeltaLayer {
                vectors: body.vectors,
                graph: body.graph,
                entry_point,
                max_degree: body.max_degree,
            },
            tombstones: set_of(&body.tombstones),
            dist,
            config,
            dim: body.dim,
            base_labels,
            delta_labels,
            num_label_fields,
            quantizer: None,
            base_codes: None,
            code_size: 0,
            rerank_size: 0,
        }
    }

    fn from_bytes_legacy(bytes: &[u8], dist: D, config: IncrementalConfig) -> (r: Result<
        Self,
        DiskAnnError,
    >)
        ensures
            exists|
                header: Result<Metadata, DiskAnnError>,
                base: Result<Option<DiskANN<'a, D>>, DiskAnnError>,
            | #[trigger]
                Self::legacy_loaded(bytes@, dist, config, header, base, r),
    {
        let ghost s = bytes@;
        let mut reader = Reader { data: bytes, pos: 0 };
        assert(reader.rest() =~= s);
        let part = match reader.base() {
            Some(part) => part,
            None => {
                let r: Result<Self, DiskAnnError> = Err(
                    DiskAnnError::IndexError(Fault::IncrementalTruncated),
                );
                proof {
                    assert(Self::legacy_loaded(s, dist, config, arbitrary(), arbitrary(), r));
                }
                return r;
            },
        };
        let base = Self::load_base(part, dist);
        let ghost kept = base;
        let ghost header = choose|header: Result<Metadata, DiskAnnError>| #[trigger]
            Self::base_loaded(
                part_view(&part),
                dist,
                header,
                kept,
            );
        match base {
            Err(e) => {
                let r: Result<Self, DiskAnnError> = Err(e);
                assert(Self::legacy_loaded(s, dist, config, header, kept, r));
                r
            },
            Ok(base) => match reader.body() {
                None => {
                    let r: Result<Self, DiskAnnError> = Err(
                        DiskAnnError::IndexError(Fault::IncrementalTruncated),
                    );
                    assert(Self::legacy_loaded(s, dist, config, header, kept, r));
                    r
                },
                Some(body) => {
                    let r: Result<Self, DiskAnnError> = Ok(
                        Self::with_parts(base, body, None, dist, config),
                    );
                    assert(Self::legacy_loaded(s, dist, config, header, kept, r));
                    r
                },
            },
        }
    }

    #[verifier::rlimit(40)]
    #[verifier::spinoff_prover]
    fn from_bytes_v1(reader: Reader, dist: D, config: IncrementalConfig) -> (r: Result<
        Self,
        DiskAnnError,
    >)
        requires
            reader.wf(),
        ensures
            exists|
                header: Result<Metadata, DiskAnnError>,
                base: Result<Option<DiskANN<'a, D>>, DiskAnnError>,
                state: Result<QuantizerState, DiskAnnError>,
            | #[trigger]
                Self::parts_loaded(reader.rest(), dist, config, header, base, state, r),
    {
        let ghost s = reader.rest();
        let mut reader = reader;
        let ghost none: Result<QuantizerState, DiskAnnError> = Err(DiskAnnError::UnexpectedEof);
        let part = match reader.base() {
            Some(part) => part,
            None => {
                let r: Result<Self, DiskAnnError> = Err(
                    DiskAnnError::IndexError(Fault::IncrementalTruncated),
                );
                proof {
                    assert(Self::parts_loaded(
                        s,
                        dist,
                        config,
                        arbitrary(),
                        arbitrary(),
                        none,
                        r,
                    ));
                }
                return r;
            },
        };
        let base = Self::load_base(part, dist);
        let ghost kept = base;
        let ghost header = choose|header: Result<Metadata, DiskAnnError>| #[trigger]
            Self::base_loaded(
                part_view(&part),
                dist,
                header,
                kept,
            );
        let base = match base {
            Ok(base) => base,
            Err(e) => {
                let r: Result<Self, DiskAnnError> = Err(e);
                assert(Self::parts_loaded(s, dist, config, header, kept, none, r));
                return r;
            },
        };
        let body = match reader.body() {
            Some(body) => body,
            None => {
                let r: Result<Self, DiskAnnError> = Err(
                    DiskAnnError::IndexError(Fault::IncrementalTruncated),
                );
                assert(Self::parts_loaded(s, dist, config, header, kept, none, r));
                return r;
            },
        };
        let labels = match reader.labels() {
            Some(labels) => labels,
            None => {
                let r: Result<Self, DiskAnnError> = Err(
                    DiskAnnError::IndexError(Fault::IncrementalTruncated),
                );
                assert(Self::parts_loaded(s, dist, config, header, kept, none, r));
                return r;
            },
        };
        let head = match reader.head() {
            Some(head) => head,
            None => {
                let r: Result<Self, DiskAnnError> = Err(
                    DiskAnnError::IndexError(Fault::IncrementalTruncated),
                );
                assert(Self::parts_loaded(s, dist, config, header, kept, none, r));
                return r;
            },
        };
        let mut index = Self::with_parts(base, body, labels, dist, config);
        let head = match head {
            Some(head) => head,
            None => {
                let r: Result<Self, DiskAnnError> = Ok(index);
                assert(Self::parts_loaded(s, dist, config, header, kept, none, r));
                return r;
            },
        };
        let state = QuantizerState::from_record(head.record.as_slice());
        let ghost kept_state = state;
        let quantizer = match state {
            Ok(quantizer) => quantizer,
            Err(e) => {
                let r: Result<Self, DiskAnnError> = Err(e);
                assert(Self::parts_loaded(s, dist, config, header, kept, kept_state, r));
                return r;
            },
        };
        let codes = match reader.codes() {
            Some(codes) => codes,
            None => {
                let r: Result<Self, DiskAnnError> = Err(
                    DiskAnnError::IndexError(Fault::IncrementalTruncated),
                );
                assert(Self::parts_loaded(s, dist, config, header, kept, kept_state, r));
                return r;
            },
        };
        index.quantizer = Some(quantizer);
        index.code_size = head.code_size;
        index.rerank_size = head.rerank_size;
        index.base_codes = if codes.len() > 0 {
            Some(codes)
        } else {
            None
        };
        let r: Result<Self, DiskAnnError> = Ok(index);
        assert(Self::parts_loaded(s, dist, config, header, kept, kept_state, r));
        r
    }

    /// Loads an index from an image, of the current or of the older layout.
    pub fn from_bytes(bytes: &[u8], dist: D, config: IncrementalConfig) -> (r: Result<
        Self,
        DiskAnnError,
    >)
        ensures
            exists|
                header: Result<Metadata, DiskAnnError>,
                base: Result<Option<DiskANN<'a, D>>, DiskAnnError>,
                state: Result<QuantizerState, DiskAnnError>,
            | #[trigger]
                Self::image_loaded(bytes@, dist, config, header, base, state, r),
    {
        let ghost b = bytes@;
        let ghost none: Result<QuantizerState, DiskAnnError> = Err(DiskAnnError::UnexpectedEof);
        if bytes.len() < 4 {
            let r: Result<Self, DiskAnnError> = Err(
                DiskAnnError::IndexError(Fault::IncrementalTooSmall),
            );
            proof {
                assert(Self::image_loaded(b, dist, config, arbitrary(), arbitrary(), none, r));
            }
            return r;
        }
        if bytes::read_u32(bytes, 0) != INCR_MAGIC {
            let r = Self::from_bytes_legacy(bytes, dist, config);
            proof {
                let (header, base) = choose|
                    header: Result<Metadata, DiskAnnError>,
                    base: Result<Option<DiskANN<'a, D>>, DiskAnnError>,
                | #[trigger]
                    Self::legacy_loaded(b, dist, config, header, base, r);
                assert(Self::image_loaded(b, dist, config, header, base, none, r));
            }
            return r;
        }
        if bytes.len() < 8 {
            let r: Result<Self, DiskAnnError> = Err(
                DiskAnnError::IndexError(Fault::IncrementalTruncated),
            );
            proof {
                assert(Self::image_loaded(b, dist, config, arbitrary(), arbitrary(), none, r));
            }
            return r;
        }
        let version: u32 = bytes::read_u32(bytes, 4);
        if version != INCR_FORMAT_VERSION {
            let r: Result<Self, DiskAnnError> = Err(
                DiskAnnError::IndexError(Fault::IncrementalVersion { version }),
            );
            proof {
                assert(Self::image_loaded(b, dist, config, arbitrary(), arbitrary(), none, r));
            }
            return r;
        }
        let reader = Reader { data: bytes, pos: 8 };
        let r = Self::from_bytes_v1(reader, dist, config);
        proof {
            assert(reader.rest() == b.skip(8));
            let (header, base, state) = choose|
                header: Result<Metadata, DiskAnnError>,
                base: Result<Option<DiskANN<'a, D>>, DiskAnnError>,
                state: Result<QuantizerState, DiskAnnError>,
            | #[trigger]
                Self::parts_loaded(b.skip(8), dist, config, header, base, state, r);
            assert(Self::image_loaded(b, dist, config, header, base, state, r));
        }
        r
    }
}

/// The bytes of rows, one after the other.
pub open spec fn row_bytes(rows: Seq<Vec<u32>>, upto: int) -> Seq<u8>
    decreases upto,
{
    if upto <= 0 {
        Seq::empty()
    } else {
        row_bytes(rows, upto - 1) + bytes::word_bytes(rows[upto - 1]@)
    }
}

/// The bytes of rows, one after the other, each behind its width.
pub open spec fn graph_bytes(rows: Seq<Vec<u32>>, upto: int) -> Seq<u8>
    decreases upto,
{
    if upto <= 0 {
        Seq::empty()
    } else {
        graph_bytes(rows, upto - 1) + bytes::le32(rows[upto - 1]@.len() as u32) + bytes::word_bytes(
            rows[upto - 1]@,
        )
    }
}

fn push_rows(out: &mut Vec<u8>, rows: &Vec<Vec<u32>>)
    ensures
        final(out)@ == old(out)@ + row_bytes(rows@, rows@.len() as int),
{
    let ghost start = out@;
    let mut i: usize = 0;
    assert(out@ =~= start + row_bytes(rows@, 0));
    while i < rows.len()
        invariant
            i <= rows@.len(),
            out@ == start + row_bytes(rows@, i as int),
        decreases rows@.len() - i,
    {
        bytes::push_words(out, rows[i].as_slice());
        i = i + 1;
        assert(out@ =~= start + row_bytes(rows@, i as int));
    }
}

fn push_graph(out: &mut Vec<u8>, rows: &Vec<Vec<u32>>)
    ensures
        final(out)@ == old(out)@ + graph_bytes(rows@, rows@.len() as int),
{
    let ghost start = out@;
    let mut i: usize = 0;
    assert(out@ =~= start + graph_bytes(rows@, 0));
    while i < rows.len()
        invariant
            i <= rows@.len(),
            out@ == start + graph_bytes(rows@, i as int),
        decreases rows@.len() - i,
    {
        bytes::push_u32(out, rows[i].len() as u32);
        bytes::push_words(out, rows[i].as_slice());
        i = i + 1;
        assert(out@ =~= start + graph_bytes(rows@, i as int));
    }
}

fn push_labels(out: &mut Vec<u8>, rows: &Vec<Vec<u64>>)
    ensures
        final(out)@ == old(out)@ + filtered::label_bytes(rows@, rows@.len() as int),
{
    let ghost start = out@;
    let mut i: usize = 0;
    assert(out@ =~= start + filtered::label_bytes(rows@, 0));
    while i < rows.len()
        invariant
            i <= rows@.len(),
            out@ == start + filtered::label_bytes(rows@, i as int),
        decreases rows@.len() - i,
    {
        bytes::push_longs(out, rows[i].as_slice());
        i = i + 1;
        assert(out@ =~= start + filtered::label_bytes(rows@, i as int));
    }
}

/// The members of a set, each once, in some order.
pub(crate) fn members(ids: &HashSet<u64>) -> (r: Vec<u64>)
    ensures
        r@.no_duplicates(),
        r@.to_set() == ids@,
        r@.len() == ids@.len(),
{
    broadcast use vstd::std_specs::hash::group_hash_axioms;

    let ghost walk = vstd::std_specs::hash::spec_hash_keys_iter(ids);
    let ghost items = vstd::std_specs::iter::IteratorSpec::remaining(&walk).unref();
    let mut r: Vec<u64> = Vec::new();
    for id in walk: ids.iter()
        invariant
            r@.len() == walk.index(),
            walk.seq().unref() == items,
            walk.seq().no_duplicates(),
            walk.seq().len() == ids@.len(),
            forall|j: int| 0 <= j < r@.len() ==> #[trigger] r@[j] == *walk.seq()[j],
            forall|j: int| 0 <= j < r@.len() ==> #[trigger] r@[j] == items[j],
    {
        r.push(*id);
    }
    assert(r@ =~= items);
    r
}

impl<'a, D: Distance> IncrementalDiskANN<'a, D> {
    /// The base in an image.
    pub open spec fn base_part(&self) -> Seq<u8> {
        match self.base {
            Some(b) => seq![1u8] + (bytes::le_bytes(b.storage@.len(), 8) + b.storage@),
            None => seq![0u8],
        }
    }

    /// The added vectors in an image.
    pub open spec fn delta_part(&self) -> Seq<u8> {
        bytes::le64(self.dim as u64) + (bytes::le_bytes(self.delta.vectors@.len(), 8) + (row_bytes(
            self.delta.vectors@,
            self.delta.vectors@.len() as int,
        ) + (bytes::le_bytes(self.delta.graph@.len(), 8) + graph_bytes(
            self.delta.graph@,
            self.delta.graph@.len() as int,
        ))))
    }

    /// The entry point, and what was deleted, in an image; `order` is the order in which
    /// the deleted ids are written.
    pub open spec fn deleted_part(&self, order: Seq<u64>) -> Seq<u8> {
        bytes::le64(entry_word(self.delta.entry_point)) + (bytes::le64(self.delta.max_degree as u64)
            + (bytes::le_bytes(order.len(), 8) + bytes::long_bytes(order)))
    }

    /// The labels in an image.
    pub open spec fn label_part(&self) -> Seq<u8> {
        match self.base_labels {
            Some(l) => seq![1u8] + (bytes::le64(self.num_label_fields as u64) + (bytes::le_bytes(
                l@.len(),
                8,
            ) + (filtered::label_bytes(l@, l@.len() as int) + (bytes::le_bytes(
                self.delta_labels@.len(),
                8,
            ) + filtered::label_bytes(self.delta_labels@, self.delta_labels@.len() as int))))),
            None => seq![0u8],
        }
    }

    /// The codes in an image.
    pub open spec fn written_codes(&self) -> Seq<u8> {
        match self.base_codes {
            Some(c) => c@,
            None => Seq::empty(),
        }
    }

    /// The quantizer and the codes in an image.
    pub open spec fn coding_part(&self) -> Seq<u8> {
        match self.quantizer {
            Some(q) => seq![1u8] + (bytes::le64(self.code_size as u64) + (bytes::le64(
                self.rerank_size as u64,
            ) + (bytes::le_bytes(q.record().len(), 8) + (q.record() + (bytes::le_bytes(
                self.written_codes().len(),
                8,
            ) + self.written_codes()))))),
            None => seq![0u8],
        }
    }

    /// The image of the index.
    pub open spec fn image(&self, order: Seq<u64>) -> Seq<u8> {
        bytes::le32(INCR_MAGIC) + bytes::le32(INCR_FORMAT_VERSION) + (self.base_part() + (
        self.delta_part() + (self.deleted_part(order) + (self.label_part() + self.coding_part()))))
    }

    /// The order lists what was deleted.
    pub open spec fn is_order(&self, order: Seq<u64>) -> bool {
        &&& order.no_duplicates()
        &&& order.to_set() == self.tombstones@
        &&& order.len() == self.tombstones@.len()
    }

    fn push_base(&self, out: &mut Vec<u8>)
        ensures
            final(out)@ == old(out)@ + self.base_part(),
    {
        let ghost start = out@;
        match &self.base {
            Some(b) => {
                out.push(1);
                let base = b.to_bytes();
                bytes::push_u64(out, base.len() as u64);
                bytes::push_slice(out, base.as_slice());
            },
            None => {
                out.push(0);
            },
        }
        assert(out@ =~= start + self.base_part());
    }

    fn push_delta(&self, out: &mut Vec<u8>)
        ensures
            final(out)@ == old(out)@ + self.delta_part(),
    {
        let ghost start = out@;
        bytes::push_u64(out, self.dim as u64);
        bytes::push_u64(out, self.delta.vectors.len() as u64);
        push_rows(out, &self.delta.vectors);
        bytes::push_u64(out, self.delta.graph.len() as u64);
        push_graph(out, &self.delta.graph);
        assert(out@ =~= start + self.delta_part());
    }

    fn push_label_part(&self, out: &mut Vec<u8>)
        ensures
            final(out)@ == old(out)@ + self.label_part(),
    {
        let ghost start = out@;
        match &self.base_labels {
            Some(l) => {
                out.push(1);
                bytes::push_u64(out, self.num_label_fields as u64);
                bytes::push_u64(out, l.len() as u64);
                push_labels(out, l);
                bytes::push_u64(out, self.delta_labels.len() as u64);
                push_labels(out, &self.delta_labels);
            },
            None => {
                out.push(0);
            },
        }
        assert(out@ =~= start + self.label_part());
    }

    fn push_coding(&self, out: &mut Vec<u8>)
        ensures
            final(out)@ == old(out)@ + self.coding_part(),
    {
        let ghost start = out@;
        match &self.quantizer {
            Some(q) => {
                out.push(1);
                bytes::push_u64(out, self.code_size as u64);
                bytes::push_u64(out, self.rerank_size as u64);
                let record = q.to_record();
                bytes::push_u64(out, record.len() as u64);
                bytes::push_slice(out, record.as_slice());
                match &self.base_codes {
                    Some(codes) => {
                        bytes::push_u64(out, codes.len() as u64);
                        bytes::push_slice(out, codes.as_slice());
                    },
                    None => {
                        bytes::push_u64(out, 0);
                    },
                }
            },
            None => {
                out.push(0);
            },
        }
        assert(out@ =~= start + self.coding_part());
    }

    fn push_deleted(&self, out: &mut Vec<u8>) -> (order: Ghost<Seq<u64>>)
        ensures
            self.is_order(order@),
            final(out)@ == old(out)@ + self.deleted_part(order@),
    {
        let ghost start = out@;
        let entry: u64 = match self.delta.entry_point {
            Some(e) => e as u64,
            None => u64::MAX,
        };
        bytes::push_u64(out, entry);
        bytes::push_u64(out, self.delta.max_degree as u64);
        let order = members(&self.tombstones);
        bytes::push_u64(out, order.len() as u64);
        bytes::push_longs(out, order.as_slice());
        assert(out@ =~= start + self.deleted_part(order@));
        Ghost(order@)
    }

    /// The index in bytes. The order in which deleted ids are written is not fixed.
    pub fn to_bytes(&self) -> (out: Vec<u8>)
        ensures
            exists|order: Seq<u64>| #[trigger] self.is_order(order) && out@ == self.image(order),
    {
        let mut out: Vec<u8> = Vec::new();
        bytes::push_u32(&mut out, INCR_MAGIC);
        bytes::push_u32(&mut out, INCR_FORMAT_VERSION);
        let ghost start = out@;
        assert(start =~= bytes::le32(INCR_MAGIC) + bytes::le32(INCR_FORMAT_VERSION));
        self.push_base(&mut out);
        self.push_delta(&mut out);
        let order = self.push_deleted(&mut out);
        self.push_label_part(&mut out);
        self.push_coding(&mut out);
        proof {
            lemma_six(
                start,
                self.base_part(),
                self.delta_part(),
                self.deleted_part(order@),
                self.label_part(),
                self.coding_part(),
            );
            assert(self.is_order(order@));
        }
        out
    }
}

proof fn lemma_six(
    a: Seq<u8>,
    b: Seq<u8>,
    c: Seq<u8>,
    d: Seq<u8>,
    e: Seq<u8>,
    f: Seq<u8>,
)
    ensures
        a + b + c + d + e + f == a + (b + (c + (d + (e + f)))),
{
    assert(a + b + c + d + e + f =~= a + (b + (c + (d + (e + f)))));
}

proof fn lemma_p_byte(v: u8, rest: Seq<u8>)
    ensures
        p_byte(seq![v] + rest) == Some((v, rest)),
{
    assert((seq![v] + rest).skip(1) =~= rest);
}

proof fn lemma_p_word(v: u32, rest: Seq<u8>)
    ensures
        p_word(bytes::le32(v) + rest) == Some((v, rest)),
{
    bytes::lemma_le32(v);
    let s = bytes::le32(v) + rest;
    assert(s.skip(4) =~= rest);
    assert(s.subrange(0, 4) =~= bytes::le32(v));
}

proof fn lemma_p_long(v: u64, rest: Seq<u8>)
    ensures
        p_long(bytes::le64(v) + rest) == Some((v, rest)),
{
    bytes::lemma_le64(v);
    let s = bytes::le64(v) + rest;
    assert(s.skip(8) =~= rest);
    assert(s.subrange(0, 8) =~= bytes::le64(v));
}

proof fn lemma_p_size(n: nat, rest: Seq<u8>)
    requires
        n <= usize::MAX,
    ensures
        p_size(bytes::le_bytes(n, 8) + rest) == Some((n as usize, rest)),
{
    lemma_p_long(n as u64, rest);
    bytes::lemma_le64(n as u64);
}

proof fn lemma_p_bytes(b: Seq<u8>, rest: Seq<u8>)
    ensures
        p_bytes(b + rest, b.len() as int) == Some((b, rest)),
{
    assert((b + rest).take(b.len() as int) =~= b);
    assert((b + rest).skip(b.len() as int) =~= rest);
}

proof fn lemma_p_words(ws: Seq<u32>, rest: Seq<u8>)
    ensures
        p_words(bytes::word_bytes(ws) + rest, ws.len() as int) == Some((ws, rest)),
{
    let none = Seq::<u8>::empty();
    bytes::lemma_word_bytes_len(ws);
    bytes::lemma_words_of_word_bytes(none, ws, rest);
    assert(none + bytes::word_bytes(ws) + rest =~= bytes::word_bytes(ws) + rest);
    assert((bytes::word_bytes(ws) + rest).skip(4 * ws.len() as int) =~= rest);
}

proof fn lemma_p_longs(ws: Seq<u64>, rest: Seq<u8>)
    ensures
        p_longs(bytes::long_bytes(ws) + rest, ws.len() as int) == Some((ws, rest)),
{
    let none = Seq::<u8>::empty();
    bytes::lemma_long_bytes_len(ws);
    bytes::lemma_longs_of_long_bytes(none, ws, rest);
    assert(none + bytes::long_bytes(ws) + rest =~= bytes::long_bytes(ws) + rest);
    assert((bytes::long_bytes(ws) + rest).skip(8 * ws.len() as int) =~= rest);
}

proof fn lemma_p_word_rows(rows: Seq<Vec<u32>>, upto: int, width: int, rest: Seq<u8>)
    requires
        0 <= upto <= rows.len(),
        forall|i: int| 0 <= i < rows.len() ==> (#[trigger] rows[i])@.len() == width,
    ensures
        p_word_rows(row_bytes(rows, upto) + rest, upto, width) == Some(
            (metric::rows(rows).take(upto), rest),
        ),
    decreases upto,
{
    if upto > 0 {
        let last = bytes::word_bytes(rows[upto - 1]@);
        lemma_p_word_rows(rows, upto - 1, width, last + rest);
        assert(row_bytes(rows, upto) + rest =~= row_bytes(rows, upto - 1) + (last + rest));
        lemma_p_words(rows[upto - 1]@, rest);
        assert(metric::rows(rows).take(upto) =~= metric::rows(rows).take(upto - 1).push(
            rows[upto - 1]@,
        ));
    } else {
        assert(row_bytes(rows, upto) + rest =~= rest);
        assert(metric::rows(rows).take(upto) =~= Seq::empty());
    }
}

proof fn lemma_p_graph(rows: Seq<Vec<u32>>, upto: int, rest: Seq<u8>)
    requires
        0 <= upto <= rows.len(),
        forall|i: int| 0 <= i < rows.len() ==> (#[trigger] rows[i])@.len() <= u32::MAX,
    ensures
        p_graph(graph_bytes(rows, upto) + rest, upto) == Some(
            (metric::rows(rows).take(upto), rest),
        ),
    decreases upto,
{
    if upto > 0 {
        let row = rows[upto - 1]@;
        let last = bytes::word_bytes(row);
        let width = bytes::le32(row.len() as u32);
        lemma_p_graph(rows, upto - 1, width + (last + rest));
        assert(graph_bytes(rows, upto) + rest =~= graph_bytes(rows, upto - 1) + (width + (last
            + rest)));
        lemma_p_word(row.len() as u32, last + rest);
        lemma_p_words(row, rest);
        assert(metric::rows(rows).take(upto) =~= metric::rows(rows).take(upto - 1).push(row));
    } else {
        assert(graph_bytes(rows, upto) + rest =~= rest);
        assert(metric::rows(rows).take(upto) =~= Seq::empty());
    }
}

proof fn lemma_p_long_rows(rows: Seq<Vec<u64>>, upto: int, width: int, rest: Seq<u8>)
    requires
        0 <= upto <= rows.len(),
        forall|i: int| 0 <= i < rows.len() ==> (#[trigger] rows[i])@.len() == width,
    ensures
        p_long_rows(filtered::label_bytes(rows, upto) + rest, upto, width) == Some(
            (long_rows(rows).take(upto), rest),
        ),
    decreases upto,
{
    if upto > 0 {
        let last = bytes::long_bytes(rows[upto - 1]@);
        lemma_p_long_rows(rows, upto - 1, width, last + rest);
        assert(filtered::label_bytes(rows, upto) + rest =~= filtered::label_bytes(rows, upto - 1)
            + (last + rest));
        lemma_p_longs(rows[upto - 1]@, rest);
        assert(long_rows(rows).take(upto) =~= long_rows(rows).take(upto - 1).push(
            rows[upto - 1]@,
        ));
    } else {
        assert(filtered::label_bytes(rows, upto) + rest =~= rest);
        assert(long_rows(rows).take(upto) =~= Seq::empty());
    }
}

/// Rows of labels with one number of fields.
pub open spec fn labels_are_level(rows: Seq<Vec<u64>>, fields: int) -> bool {
    forall|i: int| 0 <= i < rows.len() ==> (#[trigger] rows[i])@.len() == fields
}

impl<'a, D: Distance> IncrementalDiskANN<'a, D> {
    /// Vectors have `dim` components, labels have one number of fields, and rows of the
    /// graph are not too long to be written.
    pub open spec fn can_be_written(&self) -> bool {
        &&& crate::kmeans::level(self.delta.vectors@, self.dim as int)
        &&& forall|i: int|
            0 <= i < self.delta.graph@.len() ==> (#[trigger] self.delta.graph@[i])@.len()
                <= u32::MAX
        &&& self.base_labels matches Some(l) ==> labels_are_level(
            l@,
            self.num_label_fields as int,
        ) && labels_are_level(self.delta_labels@, self.num_label_fields as int)
    }

    proof fn lemma_base_part(&self, rest: Seq<u8>)
        requires
            self.base_part().len() <= usize::MAX,
        ensures
            p_base(self.base_part() + rest) == Some(
                (
                    match self.base {
                        Some(b) => Some(b.storage@),
                        None => None,
                    },
                    rest,
                ),
            ),
    {
        match self.base {
            Some(b) => {
                let size = bytes::le_bytes(b.storage@.len(), 8);
                assert(self.base_part() + rest =~= seq![1u8] + (size + (b.storage@ + rest)));
                lemma_p_byte(1, size + (b.storage@ + rest));
                lemma_p_size(b.storage@.len(), b.storage@ + rest);
                lemma_p_bytes(b.storage@, rest);
            },
            None => {
                lemma_p_byte(0, rest);
            },
        }
    }

    proof fn lemma_base_back(
        &self,
        header: Result<Metadata, DiskAnnError>,
        base: Result<Option<DiskANN<'a, D>>, DiskAnnError>,
    )
        requires
            self.is_well_based(),
            Self::base_loaded(
                match self.base {
                    Some(b) => Some(b.storage@),
                    None => None,
                },
                self.dist,
                header,
                base,
            ),
        ensures
            base is Ok,
            self.has_same_base(base->Ok_0),
            base->Ok_0 matches Some(b) ==> b.is_headed() && b.dist == self.dist,
    {
        match self.base {
            Some(b) => {
                index::headed_index_loads(
                    &b,
                    header,
                    match base {
                        Ok(base) => Ok(base->0),
                        Err(e) => Err(e),
                    },
                );
            },
            None => {},
        }
    }

    proof fn lemma_delta_part(&self, rest: Seq<u8>)
        requires
            self.can_be_written(),
        ensures
            p_delta(self.delta_part() + rest) == Some(
                (
                    (
                        self.dim,
                        metric::rows(self.delta.vectors@),
                        metric::rows(self.delta.graph@),
                    ),
                    rest,
                ),
            ),
    {
        let n = self.delta.vectors@.len();
        let m = self.delta.graph@.len();
        assert(self.delta.vectors.len() == n && self.delta.graph.len() == m);
        let graph = graph_bytes(self.delta.graph@, m as int);
        let rows = row_bytes(self.delta.vectors@, n as int);
        let s4 = graph + rest;
        let s3 = bytes::le_bytes(m, 8) + s4;
        let s2 = rows + s3;
        let s1 = bytes::le_bytes(n, 8) + s2;
        assert(self.delta_part() + rest =~= bytes::le64(self.dim as u64) + s1);
        lemma_p_size(self.dim as nat, s1);
        lemma_p_size(n, s2);
        lemma_p_word_rows(self.delta.vectors@, n as int, self.dim as int, s3);
        lemma_p_size(m, s4);
        lemma_p_graph(self.delta.graph@, m as int, rest);
        assert(metric::rows(self.delta.vectors@).take(n as int) =~= metric::rows(
            self.delta.vectors@,
        ));
        assert(metric::rows(self.delta.graph@).take(m as int) =~= metric::rows(self.delta.graph@));
    }

    proof fn lemma_body_part(&self, order: Seq<u64>, rest: Seq<u8>)
        requires
            self.can_be_written(),
            order.len() <= usize::MAX,
        ensures
            p_body(self.delta_part() + (self.deleted_part(order) + rest)) == Some(
                (
                    Body {
                        dim: self.dim,
                        vectors: metric::rows(self.delta.vectors@),
                        graph: metric::rows(self.delta.graph@),
                        entry: entry_word(self.delta.entry_point),
                        max_degree: self.delta.max_degree,
                        tombstones: order,
                    },
                    rest,
                ),
            ),
    {
        let s0 = self.deleted_part(order) + rest;
        self.lemma_delta_part(s0);
        let entry = entry_word(self.delta.entry_point);
        let s3 = bytes::long_bytes(order) + rest;
        let s2 = bytes::le_bytes(order.len(), 8) + s3;
        let s1 = bytes::le64(self.delta.max_degree as u64) + s2;
        assert(s0 =~= bytes::le64(entry) + s1);
        lemma_p_long(entry, s1);
        lemma_p_size(self.delta.max_degree as nat, s2);
        lemma_p_size(order.len(), s3);
        lemma_p_longs(order, rest);
    }

    proof fn lemma_label_part(&self, rest: Seq<u8>)
        requires
            self.can_be_written(),
        ensures
            p_labels(self.label_part() + rest) == Some(
                (
                    match self.base_labels {
                        Some(l) => Some(
                            Labels {
                                fields: self.num_label_fields,
                                base: long_rows(l@),
                                delta: long_rows(self.delta_labels@),
                            },
                        ),
                        None => None,
                    },
                    rest,
                ),
            ),
    {
        match self.base_labels {
            Some(l) => {
                let n = l@.len();
                let m = self.delta_labels@.len();
                assert(l.len() == n && self.delta_labels.len() == m);
                let fields = self.num_label_fields;
                let s5 = filtered::label_bytes(self.delta_labels@, m as int) + rest;
                let s4 = bytes::le_bytes(m, 8) + s5;
                let s3 = filtered::label_bytes(l@, n as int) + s4;
                let s2 = bytes::le_bytes(n, 8) + s3;
                let s1 = bytes::le64(fields as u64) + s2;
                assert(self.label_part() + rest =~= seq![1u8] + s1);
                lemma_p_byte(1, s1);
                lemma_p_size(fields as nat, s2);
                lemma_p_size(n, s3);
                lemma_p_long_rows(l@, n as int, fields as int, s4);
                lemma_p_size(m, s5);
                lemma_p_long_rows(self.delta_labels@, m as int, fields as int, rest);
                assert(long_rows(l@).take(n as int) =~= long_rows(l@));
                assert(long_rows(self.delta_labels@).take(m as int) =~= long_rows(
                    self.delta_labels@,
                ));
            },
            None => {
                lemma_p_byte(0, rest);
            },
        }
    }

    proof fn lemma_coding_part(&self)
        requires
            self.coding_part().len() <= usize::MAX,
        ensures
            match self.quantizer {
                Some(q) => exists|s: Seq<u8>|
                    p_head(self.coding_part()) == Some(
                        (
                            Some(
                                CodeHead {
                                    code_size: self.code_size,
                                    rerank_size: self.rerank_size,
                                    record: q.record(),
                                },
                            ),
                            s,
                        ),
                    ) && #[trigger] p_codes(s) == Some((self.written_codes(), Seq::<u8>::empty())),
                None => p_head(self.coding_part()) == Some((None::<CodeHead>, Seq::<u8>::empty())),
            },
    {
        let none = Seq::<u8>::empty();
        match self.quantizer {
            Some(q) => {
                let codes = self.written_codes();
                let s5 = bytes::le_bytes(codes.len(), 8) + (codes + none);
                let s4 = q.record() + s5;
                let s3 = bytes::le_bytes(q.record().len(), 8) + s4;
                let s2 = bytes::le64(self.rerank_size as u64) + s3;
                let s1 = bytes::le64(self.code_size as u64) + s2;
                assert(self.coding_part() =~= seq![1u8] + s1);
                lemma_p_byte(1, s1);
                lemma_p_size(self.code_size as nat, s2);
                lemma_p_size(self.rerank_size as nat, s3);
                lemma_p_size(q.record().len(), s4);
                lemma_p_bytes(q.record(), s5);
                lemma_p_size(codes.len(), codes + none);
                lemma_p_bytes(codes, none);
                assert(p_codes(s5) == Some((codes, none)));
            },
            None => {
                assert(self.coding_part() =~= seq![0u8] + none);
                lemma_p_byte(0, none);
            },
        }
    }

    /// The base carries its header, and has the metric of the index. So it is with every
    /// index that was built, opened or loaded, and whatever is added or deleted.
    pub open spec fn is_well_based(&self) -> bool {
        self.base matches Some(b) ==> b.is_headed() && b.dist == self.dist
    }

    /// There is the same base, or none.
    pub open spec fn has_same_base(&self, base: Option<DiskANN<'a, D>>) -> bool {
        match self.base {
            Some(b) => base is Some && b.is_same(&base->0),
            None => base is None,
        }
    }

    /// The parts that loading gives back: all but codes that fill no byte.
    pub open spec fn reads_back_as(&self, other: &Self) -> bool {
        &&& self.is_like(other)
        &&& self.base_labels is None ==> other.delta_labels@.len() == 0 && other.num_label_fields
            == 0
        &&& match self.quantizer {
            Some(_) => if self.written_codes().len() > 0 {
                other.base_codes is Some && other.base_codes->0@ == self.written_codes()
            } else {
                other.base_codes is None
            },
            None => {
                &&& other.base_codes is None
                &&& other.code_size == 0
                &&& other.rerank_size == 0
            },
        }
    }
}

/// Loading an image gives back what was written.
#[verifier::spinoff_prover]
#[verifier::rlimit(80)]
pub proof fn image_reads_back<D: Distance>(
    index: &IncrementalDiskANN<D>,
    order: Seq<u64>,
    config: IncrementalConfig,
    header: Result<Metadata, DiskAnnError>,
    base: Result<Option<DiskANN<D>>, DiskAnnError>,
    state: Result<QuantizerState, DiskAnnError>,
    r: Result<IncrementalDiskANN<D>, DiskAnnError>,
)
    requires
        index.can_be_written(),
        index.is_order(order),
        index.image(order).len() <= usize::MAX,
        IncrementalDiskANN::image_loaded(
            index.image(order),
            index.dist,
            config,
            header,
            base,
            state,
            r,
        ),
        index.is_well_based(),
    ensures
        r is Ok,
        r->Ok_0.is_well_based(),
        index.reads_back_as(&r->Ok_0),
{
    let b = index.image(order);
    let magic = bytes::le32(INCR_MAGIC);
    let version = bytes::le32(INCR_FORMAT_VERSION);
    bytes::lemma_le32(INCR_MAGIC);
    bytes::lemma_le32(INCR_FORMAT_VERSION);
    let s3 = index.label_part() + index.coding_part();
    let s2 = index.deleted_part(order) + s3;
    let s1 = index.delta_part() + s2;
    let s0 = index.base_part() + s1;
    assert(b =~= magic + version + s0);
    assert(b.subrange(0, 4) =~= magic);
    assert(b.subrange(4, 8) =~= version);
    assert(b.skip(8) =~= s0);
    bytes::lemma_long_bytes_len(order);
    index.lemma_base_part(s1);
    index.lemma_body_part(order, s3);
    index.lemma_label_part(index.coding_part());
    index.lemma_coding_part();
    let part: Option<Seq<u8>> = match index.base {
        Some(b) => Some(b.storage@),
        None => None,
    };
    assert(IncrementalDiskANN::base_loaded(part, index.dist, header, base));
    index.lemma_base_back(header, base);
    match index.quantizer {
        Some(q) => {
            let s = choose|s: Seq<u8>|
                p_head(index.coding_part()) == Some(
                    (
                        Some(
                            CodeHead {
                                code_size: index.code_size,
                                rerank_size: index.rerank_size,
                                record: q.record(),
                            },
                        ),
                        s,
                    ),
                ) && #[trigger] p_codes(s) == Some((index.written_codes(), Seq::<u8>::empty()));
            let none = Seq::<u8>::empty();
            assert(q.record() + none =~= q.record());
            crate::quantizer::record_reads_back(q, none, state);
        },
        None => {},
    }
}

/// An index whose rows are tidy, and whose labels, if there are any, have one number of
/// fields, can be written.
pub proof fn tidy_index_can_be_written<D: Distance>(index: &IncrementalDiskANN<D>)
    requires
        index.valid(),
        index.delta.tidy(),
        index.base_labels matches Some(l) ==> labels_are_level(l@, index.num_label_fields as int)
            && labels_are_level(index.delta_labels@, index.num_label_fields as int),
    ensures
        index.can_be_written(),
{
    assert forall|i: int| 0 <= i < index.delta.graph@.len() implies (
    #[trigger] index.delta.graph@[i])@.len() <= u32::MAX by {
        let n = index.delta.vectors@.len() as int;
        let row = index.delta.graph@[i]@;
        assert(crate::vamana::valid_row(row, i, n, index.delta.max_degree as int));
        let wide = row.map_values(|x: u32| x as int);
        assert(wide.no_duplicates()) by {
            assert forall|a: int, b: int| 0 <= a < wide.len() && 0 <= b < wide.len() && a != b
                implies wide[a] != wide[b] by {
                assert(row[a] != row[b]);
            }
        }
        let range = vstd::set_lib::set_int_range(0, n);
        vstd::set_lib::lemma_int_range(0, n);
        wide.unique_seq_to_set();
        assert(wide.to_set().subset_of(range)) by {
            assert forall|x: int| wide.to_set().contains(x) implies range.contains(x) by {
                let a = choose|a: int| 0 <= a < wide.len() && wide[a] == x;
                assert(row[a] < n);
            }
        }
        vstd::set_lib::lemma_len_subset(wide.to_set(), range);
    }
}

/// A new index over vectors is well-based.
pub proof fn built_index_is_well_based<'a, D: Distance>(
    vectors: &Vec<Vec<u32>>,
    labels: Option<Seq<Vec<u64>>>,
    dist: D,
    config: IncrementalConfig,
    kind: Option<QuantizerKind>,
    rerank_size: usize,
    base: Result<DiskANN<'a, D>, DiskAnnError>,
    trained: Result<QuantizerState, DiskAnnError>,
    r: Result<IncrementalDiskANN<'a, D>, DiskAnnError>,
)
    requires
        IncrementalDiskANN::built(
            vectors,
            labels,
            dist,
            config,
            kind,
            rerank_size,
            base,
            trained,
            r,
        ),
        r is Ok,
    ensures
        r->Ok_0.is_well_based(),
{
    index::built_index_is_headed(
        &base->Ok_0,
        vectors,
        index::BUILD_MAX_DEGREE as int,
        index::BUILD_BEAM_WIDTH as int,
        index::DISKANN_DEFAULT_ALPHA,
        dist,
    );
}

/// An index over a file is well-based.
pub proof fn opened_index_is_well_based<'a, D: Distance>(
    b: Seq<u8>,
    dist: D,
    config: IncrementalConfig,
    header: Result<Metadata, DiskAnnError>,
    base: Result<DiskANN<'a, D>, DiskAnnError>,
    r: Result<IncrementalDiskANN<'a, D>, DiskAnnError>,
)
    requires
        b.len() <= usize::MAX,
        IncrementalDiskANN::opened_at(b, dist, config, header, base, r),
        r is Ok,
    ensures
        r->Ok_0.is_well_based(),
{
    index::loaded_index_is_headed(&base->Ok_0, b, header, dist);
}

/// An index that was loaded from an image, of this layout or the one before, is
/// well-based.
pub proof fn loaded_index_is_well_based<'a, D: Distance>(
    b: Seq<u8>,
    dist: D,
    config: IncrementalConfig,
    header: Result<Metadata, DiskAnnError>,
    base: Result<Option<DiskANN<'a, D>>, DiskAnnError>,
    state: Result<QuantizerState, DiskAnnError>,
    r: Result<IncrementalDiskANN<'a, D>, DiskAnnError>,
)
    requires
        b.len() <= usize::MAX,
        IncrementalDiskANN::image_loaded(b, dist, config, header, base, state, r),
        r is Ok,
    ensures
        r->Ok_0.is_well_based(),
{
    let s = if bytes::word_at(b, 0) != INCR_MAGIC {
        b
    } else {
        b.skip(8)
    };
    let part = p_base(s)->Some_0.0;
    assert(IncrementalDiskANN::base_loaded(part, dist, header, base));
    assert(r->Ok_0.base == base->Ok_0 && r->Ok_0.dist == dist);
    if part is Some {
        let bytes = part->0;
        assert(bytes.len() <= s.len());
        index::loaded_index_is_headed(&base->Ok_0->0, bytes, header, dist);
    }
}

/// An index that was compacted is well-based.
pub proof fn compacted_index_is_well_based<'a, D: Distance>(
    pre: &IncrementalDiskANN<'a, D>,
    all: Vec<Vec<u32>>,
    base: Result<DiskANN<'a, D>, DiskAnnError>,
    c: Result<Compaction<'a, D>, DiskAnnError>,
    post: &IncrementalDiskANN<'a, D>,
    r: Result<(), DiskAnnError>,
)
    requires
        pre.is_well_based(),
        IncrementalDiskANN::compacted(pre, all, base, c, post, r),
    ensures
        post.is_well_based(),
{
    if r is Ok {
        index::built_index_is_headed(
            &base->Ok_0,
            &all,
            index::BUILD_MAX_DEGREE as int,
            index::BUILD_BEAM_WIDTH as int,
            index::DISKANN_DEFAULT_ALPHA,
            pre.dist,
        );
    }
}

/// Adding and deleting vectors leaves an index well-based.
pub proof fn changed_index_is_well_based<'a, D: Distance>(
    pre: &IncrementalDiskANN<'a, D>,
    ids: Seq<u64>,
    post: &IncrementalDiskANN<'a, D>,
)
    requires
        pre.is_well_based(),
        post.same_base(pre) || IncrementalDiskANN::deleted(pre, ids, post),
    ensures
        post.is_well_based(),
{
}

// What stands at the start of bytes also stands there when more bytes follow.
proof fn lemma_more(s: Seq<u8>, z: Seq<u8>, n: int)
    requires
        0 <= n <= s.len(),
    ensures
        (s + z).skip(n) == s.skip(n) + z,
        (s + z).take(n) == s.take(n),
        (s + z).subrange(0, n) == s.subrange(0, n),
{
    assert((s + z).skip(n) =~= s.skip(n) + z);
    assert((s + z).take(n) =~= s.take(n));
    assert((s + z).subrange(0, n) =~= s.subrange(0, n));
}

proof fn lemma_more_byte(s: Seq<u8>, z: Seq<u8>)
    requires
        p_byte(s) is Some,
    ensures
        p_byte(s + z) == Some((p_byte(s)->Some_0.0, p_byte(s)->Some_0.1 + z)),
{
    lemma_more(s, z, 1);
}

proof fn lemma_more_long(s: Seq<u8>, z: Seq<u8>)
    requires
        p_long(s) is Some,
    ensures
        p_long(s + z) == Some((p_long(s)->Some_0.0, p_long(s)->Some_0.1 + z)),
{
    lemma_more(s, z, 8);
}

proof fn lemma_more_size(s: Seq<u8>, z: Seq<u8>)
    requires
        p_size(s) is Some,
    ensures
        p_size(s + z) == Some((p_size(s)->Some_0.0, p_size(s)->Some_0.1 + z)),
{
    lemma_more(s, z, 8);
}

proof fn lemma_more_bytes(s: Seq<u8>, n: int, z: Seq<u8>)
    requires
        0 <= n,
        p_bytes(s, n) is Some,
    ensures
        p_bytes(s + z, n) == Some((p_bytes(s, n)->Some_0.0, p_bytes(s, n)->Some_0.1 + z)),
{
    lemma_more(s, z, n);
}

proof fn lemma_more_words(s: Seq<u8>, n: int, z: Seq<u8>)
    requires
        0 <= n,
        p_words(s, n) is Some,
    ensures
        p_words(s + z, n) == Some((p_words(s, n)->Some_0.0, p_words(s, n)->Some_0.1 + z)),
{
    lemma_more(s, z, 4 * n);
    assert forall|c: int| 0 <= c < n implies #[trigger] bytes::words_at(s + z, 0, n)[c]
        == bytes::words_at(s, 0, n)[c] by {
        assert((s + z).subrange(0 + 4 * c, 0 + 4 * c + 4) =~= s.subrange(0 + 4 * c, 0 + 4 * c + 4));
    }
    assert(bytes::words_at(s + z, 0, n) =~= bytes::words_at(s, 0, n));
}

proof fn lemma_more_longs(s: Seq<u8>, n: int, z: Seq<u8>)
    requires
        0 <= n,
        p_longs(s, n) is Some,
    ensures
        p_longs(s + z, n) == Some((p_longs(s, n)->Some_0.0, p_longs(s, n)->Some_0.1 + z)),
{
    lemma_more(s, z, 8 * n);
    assert forall|c: int| 0 <= c < n implies #[trigger] bytes::longs_at(s + z, 0, n)[c]
        == bytes::longs_at(s, 0, n)[c] by {
        assert((s + z).subrange(0 + 8 * c, 0 + 8 * c + 8) =~= s.subrange(0 + 8 * c, 0 + 8 * c + 8));
    }
    assert(bytes::longs_at(s + z, 0, n) =~= bytes::longs_at(s, 0, n));
}

proof fn lemma_more_word_rows(s: Seq<u8>, n: int, width: int, z: Seq<u8>)
    requires
        0 <= width,
        p_word_rows(s, n, width) is Some,
    ensures
        p_word_rows(s + z, n, width) == Some(
            (p_word_rows(s, n, width)->Some_0.0, p_word_rows(s, n, width)->Some_0.1 + z),
        ),
    decreases n,
{
    if n > 0 {
        lemma_more_word_rows(s, n - 1, width, z);
        lemma_more_words(p_word_rows(s, n - 1, width)->Some_0.1, width, z);
    }
}

proof fn lemma_more_graph(s: Seq<u8>, n: int, z: Seq<u8>)
    requires
        p_graph(s, n) is Some,
    ensures
        p_graph(s + z, n) == Some((p_graph(s, n)->Some_0.0, p_graph(s, n)->Some_0.1 + z)),
    decreases n,
{
    if n > 0 {
        lemma_more_graph(s, n - 1, z);
        let rest = p_graph(s, n - 1)->Some_0.1;
        lemma_more(rest, z, 4);
        let (width, after) = p_word(rest)->0;
        lemma_more_words(after, width as int, z);
    }
}

proof fn lemma_more_long_rows(s: Seq<u8>, n: int, width: int, z: Seq<u8>)
    requires
        0 <= width,
        p_long_rows(s, n, width) is Some,
    ensures
        p_long_rows(s + z, n, width) == Some(
            (p_long_rows(s, n, width)->Some_0.0, p_long_rows(s, n, width)->Some_0.1 + z),
        ),
    decreases n,
{
    if n > 0 {
        lemma_more_long_rows(s, n - 1, width, z);
        lemma_more_longs(p_long_rows(s, n - 1, width)->Some_0.1, width, z);
    }
}

proof fn lemma_more_base(s: Seq<u8>, z: Seq<u8>)
    requires
        p_base(s) is Some,
    ensures
        p_base(s + z) == Some((p_base(s)->Some_0.0, p_base(s)->Some_0.1 + z)),
{
    lemma_more_byte(s, z);
    let (flag, s1) = p_byte(s)->0;
    if flag == 1 {
        lemma_more_size(s1, z);
        let (n, s2) = p_size(s1)->0;
        lemma_more_bytes(s2, n as int, z);
    }
}

proof fn lemma_more_delta(s: Seq<u8>, z: Seq<u8>)
    requires
        p_delta(s) is Some,
    ensures
        p_delta(s + z) == Some((p_delta(s)->Some_0.0, p_delta(s)->Some_0.1 + z)),
{
    lemma_more_size(s, z);
    let (dim, s1) = p_size(s)->0;
    lemma_more_size(s1, z);
    let (n, s2) = p_size(s1)->0;
    lemma_more_word_rows(s2, n as int, dim as int, z);
    let s3 = p_word_rows(s2, n as int, dim as int)->Some_0.1;
    lemma_more_size(s3, z);
    let (m, s4) = p_size(s3)->0;
    lemma_more_graph(s4, m as int, z);
}

proof fn lemma_more_body(s: Seq<u8>, z: Seq<u8>)
    requires
        p_body(s) is Some,
    ensures
        p_body(s + z) == Some((p_body(s)->Some_0.0, p_body(s)->Some_0.1 + z)),
{
    lemma_more_delta(s, z);
    let s1 = p_delta(s)->Some_0.1;
    lemma_more_long(s1, z);
    let s2 = p_long(s1)->Some_0.1;
    lemma_more_size(s2, z);
    let s3 = p_size(s2)->Some_0.1;
    lemma_more_size(s3, z);
    let (n, s4) = p_size(s3)->0;
    lemma_more_longs(s4, n as int, z);
}

proof fn lemma_more_labels(s: Seq<u8>, z: Seq<u8>)
    requires
        p_labels(s) is Some,
    ensures
        p_labels(s + z) == Some((p_labels(s)->Some_0.0, p_labels(s)->Some_0.1 + z)),
{
    lemma_more_byte(s, z);
    let (flag, s1) = p_byte(s)->0;
    if flag == 1 {
        lemma_more_size(s1, z);
        let (fields, s2) = p_size(s1)->0;
        lemma_more_size(s2, z);
        let (n, s3) = p_size(s2)->0;
        lemma_more_long_rows(s3, n as int, fields as int, z);
        let s4 = p_long_rows(s3, n as int, fields as int)->Some_0.1;
        lemma_more_size(s4, z);
        let (m, s5) = p_size(s4)->0;
        lemma_more_long_rows(s5, m as int, fields as int, z);
    }
}

proof fn lemma_more_head(s: Seq<u8>, z: Seq<u8>)
    requires
        p_head(s) is Some,
    ensures
        p_head(s + z) == Some((p_head(s)->Some_0.0, p_head(s)->Some_0.1 + z)),
{
    lemma_more_byte(s, z);
    let (flag, s1) = p_byte(s)->0;
    if flag == 1 {
        lemma_more_size(s1, z);
        let s2 = p_size(s1)->Some_0.1;
        lemma_more_size(s2, z);
        let s3 = p_size(s2)->Some_0.1;
        lemma_more_size(s3, z);
        let (n, s4) = p_size(s3)->0;
        lemma_more_bytes(s4, n as int, z);
    }
}

proof fn lemma_more_codes(s: Seq<u8>, z: Seq<u8>)
    requires
        p_codes(s) is Some,
    ensures
        p_codes(s + z) == Some((p_codes(s)->Some_0.0, p_codes(s)->Some_0.1 + z)),
{
    lemma_more_size(s, z);
    let (n, s1) = p_size(s)->0;
    lemma_more_bytes(s1, n as int, z);
}

/// An image that lacks bytes at its end is refused, wherever it was cut.
#[verifier::spinoff_prover]
#[verifier::rlimit(40)]
pub proof fn cut_image_is_refused<D: Distance>(
    index: &IncrementalDiskANN<D>,
    order: Seq<u64>,
    n: int,
    dist: D,
    config: IncrementalConfig,
    header: Result<Metadata, DiskAnnError>,
    base: Result<Option<DiskANN<D>>, DiskAnnError>,
    state: Result<QuantizerState, DiskAnnError>,
    r: Result<IncrementalDiskANN<D>, DiskAnnError>,
)
    requires
        index.can_be_written(),
        index.is_order(order),
        index.image(order).len() <= usize::MAX,
        0 <= n < index.image(order).len(),
        IncrementalDiskANN::image_loaded(
            index.image(order).take(n),
            dist,
            config,
            header,
            base,
            state,
            r,
        ),
    ensures
        r is Err,
{
    let b = index.image(order);
    let t = b.take(n);
    let z = b.skip(n);
    let magic = bytes::le32(INCR_MAGIC);
    let version = bytes::le32(INCR_FORMAT_VERSION);
    bytes::lemma_le32(INCR_MAGIC);
    bytes::lemma_le32(INCR_FORMAT_VERSION);
    let s3 = index.label_part() + index.coding_part();
    let s2 = index.deleted_part(order) + s3;
    let s1 = index.delta_part() + s2;
    let s0 = index.base_part() + s1;
    assert(b =~= magic + version + s0);
    if n >= 4 {
        assert(t.subrange(0, 4) =~= magic);
    }
    if n >= 8 && r is Ok {
        assert(t.subrange(4, 8) =~= version);
        let t0 = t.skip(8);
        assert(b.skip(8) =~= s0);
        assert(t0 + z =~= s0);
        bytes::lemma_long_bytes_len(order);
        index.lemma_base_part(s1);
        index.lemma_body_part(order, s3);
        index.lemma_label_part(index.coding_part());
        index.lemma_coding_part();
        assert(IncrementalDiskANN::parts_loaded(t0, dist, config, header, base, state, r));
        lemma_more_base(t0, z);
        let t1 = p_base(t0)->Some_0.1;
        assert(t1 + z == s1);
        lemma_more_body(t1, z);
        let t2 = p_body(t1)->Some_0.1;
        assert(t2 + z == s3);
        lemma_more_labels(t2, z);
        let t3 = p_labels(t2)->Some_0.1;
        assert(t3 + z == index.coding_part());
        lemma_more_head(t3, z);
        let t4 = p_head(t3)->Some_0.1;
        let none = Seq::<u8>::empty();
        match index.quantizer {
            Some(q) => {
                lemma_more_codes(t4, z);
                assert((p_codes(t4)->Some_0.1 + z).len() == 0);
            },
            None => {
                assert((t4 + z).len() == 0);
            },
        }
    }
}

} // verus!
