//! Writing an index of postings down, and opening what was written.
use crate::error::DiskAnnError;
use crate::error::Fault;
use crate::image;
use crate::incremental;
use crate::incremental::IncrementalConfig;
use crate::incremental::IncrementalDiskANN;
use crate::index::Metadata;
use crate::index::DiskANN;
use crate::meta;
use crate::meta::Description;
use crate::meta::Meta;
use crate::metric;
use crate::metric::Distance;
use crate::postings;
use crate::postings::Blocks;
use crate::quantizer::QuantizerState;
use crate::spfresh;
use crate::spfresh::SPFresh;
use crate::upkeep;
use std::collections::HashMap;
use std::collections::HashSet;
use vstd::prelude::*;

verus! {

/// The members of a set, each once, in some order.
pub open spec fn is_listing(order: Seq<u64>, ids: Set<u64>) -> bool {
    &&& order.no_duplicates()
    &&& order.to_set() == ids
    &&& order.len() == ids.len()
}

/// The block of each centroid, from the centroids of the first `upto` blocks.
pub open spec fn by_cid(block_cid: Seq<u64>, upto: int) -> Map<u64, u32>
    decreases upto,
{
    if upto <= 0 {
        Map::empty()
    } else if block_cid[upto - 1] == spfresh::FREE {
        by_cid(block_cid, upto - 1)
    } else {
        by_cid(block_cid, upto - 1).insert(block_cid[upto - 1], (upto - 1) as u32)
    }
}

/// The first `upto` blocks that hold no posting, as freed before the first epoch.
pub open spec fn free_upto(block_cid: Seq<u64>, upto: int) -> Seq<(u32, u64)>
    decreases upto,
{
    if upto <= 0 {
        Seq::empty()
    } else if block_cid[upto - 1] == spfresh::FREE {
        free_upto(block_cid, upto - 1).push(((upto - 1) as u32, 0u64))
    } else {
        free_upto(block_cid, upto - 1)
    }
}

impl Meta {
    /// Bytes of a block.
    pub open spec fn block_size(&self) -> int {
        postings::block_size(
            2 * upkeep::raised(self.cfg).max_posting_size,
            spfresh::code_bytes(&self.quantizer, self.dim as int),
        )
    }

    /// Bytes of all blocks.
    pub open spec fn postings_size(&self) -> int {
        self.block_cid@.len() * self.block_size()
    }

    /// Components of all vectors.
    pub open spec fn raw_size(&self) -> int {
        self.next_id * self.dim
    }

    /// The sizes of what is described can be told in machine words.
    pub open spec fn fits(&self) -> bool {
        &&& 2 * upkeep::raised(self.cfg).max_posting_size <= usize::MAX
        &&& spfresh::code_bytes(&self.quantizer, self.dim as int) <= usize::MAX
        &&& self.block_size() <= usize::MAX
        &&& self.postings_size() <= usize::MAX
        &&& self.next_id <= usize::MAX
        &&& self.raw_size() <= usize::MAX
        &&& self.block_cid@.len() <= u32::MAX
    }

    fn code_size(&self) -> (r: Option<usize>)
        ensures
            match r {
                Some(n) => n == spfresh::code_bytes(&self.quantizer, self.dim as int),
                None => spfresh::code_bytes(&self.quantizer, self.dim as int) > usize::MAX,
            },
    {
        match &self.quantizer {
            None => self.dim.checked_mul(4),
            Some(QuantizerState::PQ(q)) => Some(q.num_subspaces),
            Some(QuantizerState::F16(q)) => q.dim.checked_mul(2),
            Some(QuantizerState::Int8(q)) => Some(q.dim),
            Some(QuantizerState::RaBitQ(q)) => Some(q.code_size()),
        }
    }

    /// The bytes of a code, of a block and of all blocks, and the components of all
    /// vectors, where they can be told.
    pub fn sizes(&self) -> (r: Option<(usize, usize, usize, usize)>)
        ensures
            match r {
                Some(s) => {
                    &&& self.fits()
                    &&& s.0 == spfresh::code_bytes(&self.quantizer, self.dim as int)
                    &&& s.1 == self.block_size()
                    &&& s.2 == self.postings_size()
                    &&& s.3 == self.raw_size()
                },
                None => !self.fits(),
            },
    {
        let code: usize = match self.code_size() {
            Some(n) => n,
            None => {
                return None;
            },
        };
        let max: usize = if self.cfg.max_posting_size < 2 {
            2
        } else {
            self.cfg.max_posting_size
        };
        let capacity: usize = match max.checked_mul(2) {
            Some(c) => c,
            None => {
                return None;
            },
        };
        let n: usize = self.block_cid.len();
        proof {
            let c = capacity as int;
            assert(c * (8 + code) >= 8 + code) by (nonlinear_arith)
                requires
                    c >= 1,
                    code >= 0,
            ;
            let b = self.block_size();
            assert(n * b >= 0) by (nonlinear_arith)
                requires
                    n >= 0,
                    b >= 0,
            ;
            let d = self.dim as int;
            let k = self.next_id as int;
            assert(k * d >= 0) by (nonlinear_arith)
                requires
                    k >= 0,
                    d >= 0,
            ;
        }
        let entry: usize = match code.checked_add(8) {
            Some(e) => e,
            None => {
                return None;
            },
        };
        let entries: usize = match capacity.checked_mul(entry) {
            Some(e) => e,
            None => {
                return None;
            },
        };
        let block: usize = match entries.checked_add(4) {
            Some(b) => b,
            None => {
                return None;
            },
        };
        let all: usize = match n.checked_mul(block) {
            Some(a) => a,
            None => {
                return None;
            },
        };
        if self.next_id > usize::MAX as u64 || n > u32::MAX as usize {
            return None;
        }
        match (self.next_id as usize).checked_mul(self.dim) {
            Some(raw) => Some((code, block, all, raw)),
            None => None,
        }
    }
}

/// The block of each centroid.
fn index_cids(block_cid: &Vec<u64>) -> (r: HashMap<u64, u32>)
    requires
        block_cid@.len() <= u32::MAX,
    ensures
        r@ == by_cid(block_cid@, block_cid@.len() as int),
{
    broadcast use vstd::std_specs::hash::group_hash_axioms;

    let mut r: HashMap<u64, u32> = HashMap::new();
    let n: usize = block_cid.len();
    let mut b: usize = 0;
    while b < n
        invariant
            b <= n == block_cid@.len() <= u32::MAX,
            r@ == by_cid(block_cid@, b as int),
        decreases n - b,
    {
        broadcast use vstd::std_specs::hash::group_hash_axioms;

        if block_cid[b] != spfresh::FREE {
            r.insert(block_cid[b], b as u32);
        }
        b = b + 1;
    }
    r
}

/// The blocks that hold no posting.
fn list_free(block_cid: &Vec<u64>) -> (r: Vec<(u32, u64)>)
    requires
        block_cid@.len() <= u32::MAX,
    ensures
        r@ == free_upto(block_cid@, block_cid@.len() as int),
{
    let mut r: Vec<(u32, u64)> = Vec::new();
    let n: usize = block_cid.len();
    let mut b: usize = 0;
    while b < n
        invariant
            b <= n == block_cid@.len() <= u32::MAX,
            r@ == free_upto(block_cid@, b as int),
        decreases n - b,
    {
        if block_cid[b] == spfresh::FREE {
            r.push((b as u32, 0));
        }
        b = b + 1;
    }
    r
}

fn set_of(ids: &Vec<u64>) -> (r: HashSet<u64>)
    ensures
        r@ == ids@.to_set(),
{
    broadcast use vstd::std_specs::hash::group_hash_axioms;

    let mut r: HashSet<u64> = HashSet::new();
    let n: usize = ids.len();
    let mut i: usize = 0;
    assert(r@ =~= ids@.take(0).to_set());
    while i < n
        invariant
            i <= n == ids@.len(),
            r@ == ids@.take(i as int).to_set(),
        decreases n - i,
    {
        broadcast use vstd::std_specs::hash::group_hash_axioms;

        r.insert(ids[i]);
        proof {
            let a = ids@.take(i as int);
            let b = ids@.take(i + 1);
            assert(b =~= a.push(ids@[i as int]));
            assert forall|id: u64| #[trigger] b.to_set().contains(id) <==> a.to_set().contains(id)
                || id == ids@[i as int] by {
                if a.contains(id) {
                    let m = choose|m: int| 0 <= m < a.len() && a[m] == id;
                    assert(b[m] == id);
                }
                assert(b[i as int] == ids@[i as int]);
            }
            assert(r@ =~= b.to_set());
        }
        i = i + 1;
    }
    assert(ids@.take(n as int) =~= ids@);
    r
}

/// The first `n` items, filled up where there are fewer.
pub open spec fn filled<T>(s: Seq<T>, n: int, with: T) -> Seq<T> {
    Seq::new(
        n as nat,
        |i: int|
            if i < s.len() {
                s[i]
            } else {
                with
            },
    )
}

fn fill<T: Copy>(s: Vec<T>, n: usize, with: T) -> (r: Vec<T>)
    ensures
        r@ == filled(s@, n as int, with),
{
    let ghost first = s@;
    let mut r = s;
    r.truncate(n);
    while r.len() < n
        invariant
            r@.len() <= n,
            first.len() <= r@.len() || r@.len() == n,
            forall|i: int|
                0 <= i < r@.len() ==> #[trigger] r@[i] == if i < first.len() {
                    first[i]
                } else {
                    with
                },
        decreases n - r@.len(),
    {
        r.push(with);
    }
    assert(r@ =~= filled(first, n as int, with));
    r
}

impl<'a, D: Distance> SPFresh<'a, D> {
    /// The description of the index, with the deleted ids in some order.
    pub open spec fn described(&self, order: Seq<u64>) -> Description {
        Description {
            dim: self.dim,
            cfg: self.cfg,
            quantizer: self.quantizer,
            block_cid: self.block_cid@,
            block_centroid: metric::rows(self.block_centroid@),
            next_id: self.next_id,
            deleted: order,
            live: self.live,
        }
    }

    /// Describes the index. The order in which deleted ids are written is not fixed.
    pub fn meta(&self) -> (r: Vec<u8>)
        ensures
            exists|order: Seq<u64>| #[trigger]
                is_listing(order, self.deleted@) && r@ == self.described(order).bytes(),
    {
        let order = image::members(&self.deleted);
        let r = meta::describe(
            self.dim,
            self.cfg,
            &self.quantizer,
            &self.block_cid,
            &self.block_centroid,
            self.next_id,
            &order,
            self.live,
        );
        assert(is_listing(order@, self.deleted@) && r@ == self.described(order@).bytes());
        r
    }

    /// The index that a description, a graph, the bytes of blocks and the components of
    /// vectors make up. What is missing of these is zero.
    pub open spec fn is_opened(
        &self,
        m: Meta,
        graph: IncrementalDiskANN<'a, D>,
        blocks: Seq<u8>,
        raw: Seq<u32>,
        dist: D,
    ) -> bool {
        &&& self.dim == m.dim
        &&& self.cfg == upkeep::raised(m.cfg)
        &&& self.dist == dist
        &&& self.quantizer == m.quantizer
        &&& self.graph == graph
        &&& self.block_cid == m.block_cid
        &&& self.block_centroid == m.block_centroid
        &&& self.cid_block@ == by_cid(m.block_cid@, m.block_cid@.len() as int)
        &&& self.free@ == free_upto(m.block_cid@, m.block_cid@.len() as int)
        &&& self.created@ == Seq::<u32>::empty()
        &&& self.epoch == 1
        &&& self.dirty@ == Map::<u32, u64>::empty()
        &&& self.write_seq == 0
        &&& self.synced_id == 0
        &&& self.postings.data@ == filled(blocks, m.postings_size(), 0u8)
        &&& self.postings.count == m.block_cid@.len()
        &&& self.postings.capacity == 2 * self.cfg.max_posting_size
        &&& self.postings.code_size == spfresh::code_bytes(&m.quantizer, m.dim as int)
        &&& self.raw@ == filled(raw, m.raw_size(), 0u32)
        &&& self.next_id == m.next_id
        &&& self.deleted@ == m.deleted@.to_set()
        &&& self.live == m.live
    }

    /// Putting a described index together gives `r`.
    pub open spec fn assembled(
        m: Meta,
        graph: IncrementalDiskANN<'a, D>,
        blocks: Seq<u8>,
        raw: Seq<u32>,
        dist: D,
        r: Result<Self, DiskAnnError>,
    ) -> bool {
        if !m.fits() {
            r is Err && r->Err_0 == DiskAnnError::IndexError(Fault::OutOfRoom)
        } else {
            r is Ok && r->Ok_0.is_opened(m, graph, blocks, raw, dist)
        }
    }

    fn assemble(
        m: Meta,
        graph: IncrementalDiskANN<'a, D>,
        blocks: Vec<u8>,
        raw: Vec<u32>,
        dist: D,
    ) -> (r: Result<Self, DiskAnnError>)
        ensures
            Self::assembled(m, graph, blocks@, raw@, dist, r),
    {
        broadcast use vstd::std_specs::hash::group_hash_axioms;

        let (code, block, need, words) = match m.sizes() {
            Some(s) => s,
            None => {
                return Err(DiskAnnError::IndexError(Fault::OutOfRoom));
            },
        };
        let data = fill(blocks, need, 0u8);
        let words_kept = fill(raw, words, 0u32);
        let mut cfg = m.cfg;
        if cfg.max_posting_size < 2 {
            cfg.max_posting_size = 2;
        }
        let cid_block = index_cids(&m.block_cid);
        let free = list_free(&m.block_cid);
        let deleted = set_of(&m.deleted);
        let count: usize = m.block_cid.len();
        Ok(
            SPFresh {
                dim: m.dim,
                cfg,
                dist,
                quantizer: m.quantizer,
                graph,
                block_cid: m.block_cid,
                block_centroid: m.block_centroid,
                cid_block,
                free,
                created: Vec::new(),
                epoch: 1,
                dirty: HashMap::new(),
                write_seq: 0,
                synced_id: 0,
                postings: Blocks {
                    data,
                    count,
                    capacity: 2 * cfg.max_posting_size,
                    code_size: code,
                },
                raw: words_kept,
                next_id: m.next_id,
                deleted,
                live: m.live,
            },
        )
    }

    /// Opening an index gives `r`: its description reads as `m`, its graph as `graph`.
    pub open spec fn opened(
        m: Result<Meta, DiskAnnError>,
        graph: Result<IncrementalDiskANN<'a, D>, DiskAnnError>,
        blocks: Seq<u8>,
        raw: Seq<u32>,
        dist: D,
        r: Result<Self, DiskAnnError>,
    ) -> bool {
        match m {
            Err(e) => r is Err && r->Err_0 == e,
            Ok(m) => match graph {
                Err(e) => r is Err && r->Err_0 == e,
                Ok(g) => Self::assembled(m, g, blocks, raw, dist, r),
            },
        }
    }

    /// The bytes hold a graph of centroids that reads as `graph`.
    pub open spec fn graph_reads_as(
        s: Seq<u8>,
        dist: D,
        graph: Result<IncrementalDiskANN<'a, D>, DiskAnnError>,
    ) -> bool {
        exists|
            config: IncrementalConfig,
            header: Result<Metadata, DiskAnnError>,
            base: Result<Option<DiskANN<'a, D>>, DiskAnnError>,
            state: Result<QuantizerState, DiskAnnError>,
        | #[trigger]
            IncrementalDiskANN::image_loaded(s, dist, config, header, base, state, graph)
                && incremental::is_default(config)
    }

    /// Opens an index from its description, its graph, its blocks and its vectors.
    pub fn open(
        description: &[u8],
        centroids: &[u8],
        blocks: Vec<u8>,
        raw: Vec<u32>,
        dist: D,
    ) -> (r: Result<Self, DiskAnnError>)
        ensures
            exists|
                m: Result<Meta, DiskAnnError>,
                graph: Result<IncrementalDiskANN<'a, D>, DiskAnnError>,
            | #[trigger]
                Self::opened(m, graph, blocks@, raw@, dist, r) && Meta::read_as(description@, m)
                    && (m is Ok ==> Self::graph_reads_as(centroids@, dist, graph)),
            r is Ok ==> r->Ok_0.is_grounded(),
    {
        let read = Meta::from_bytes(description);
        let ghost m = read;
        let parsed = match read {
            Ok(parsed) => parsed,
            Err(e) => {
                let r: Result<Self, DiskAnnError> = Err(e);
                proof {
                    let graph: Result<IncrementalDiskANN<'a, D>, DiskAnnError> = Err(e);
                    assert(Self::opened(m, graph, blocks@, raw@, dist, r));
                }
                return r;
            },
        };
        let config = IncrementalConfig::default();
        let loaded = IncrementalDiskANN::from_bytes(centroids, dist, config);
        let ghost graph = loaded;
        proof {
            let (header, base, state) = choose|
                header: Result<Metadata, DiskAnnError>,
                base: Result<Option<DiskANN<'a, D>>, DiskAnnError>,
                state: Result<QuantizerState, DiskAnnError>,
            | #[trigger]
                IncrementalDiskANN::image_loaded(
                    centroids@,
                    dist,
                    config,
                    header,
                    base,
                    state,
                    graph,
                );
            assert(IncrementalDiskANN::image_loaded(
                centroids@,
                dist,
                config,
                header,
                base,
                state,
                graph,
            ) && incremental::is_default(config));
            assert(Self::graph_reads_as(centroids@, dist, graph));
            if graph is Ok {
                assert(centroids.len() == centroids@.len());
                image::loaded_index_is_well_based(
                    centroids@,
                    dist,
                    config,
                    header,
                    base,
                    state,
                    graph,
                );
                assert(graph->Ok_0.dist == dist);
            }
        }
        match loaded {
            Ok(g) => {
                let r = Self::assemble(parsed, g, blocks, raw, dist);
                assert(Self::opened(m, graph, blocks@, raw@, dist, r));
                r
            },
            Err(e) => {
                let r: Result<Self, DiskAnnError> = Err(e);
                assert(Self::opened(m, graph, blocks@, raw@, dist, r));
                r
            },
        }
    }
}

/// Quantizers with the same fields code alike.
proof fn lemma_codes_alike<D: Distance>(
    a: QuantizerState,
    b: QuantizerState,
    dist: D,
    v: Seq<u32>,
    centroid: Seq<u32>,
)
    requires
        a.same(&b),
    ensures
        a.wf() == b.wf(),
        a.dim_of() == b.dim_of(),
        a.code_len() == b.code_len(),
        a.code_of(dist, v) == b.code_of(dist, v),
        (a matches QuantizerState::RaBitQ(x) && b matches QuantizerState::RaBitQ(y) && x.code_of(
            dist,
            v,
            centroid,
        ) == y.code_of(dist, v, centroid)) || !(a is RaBitQ),
        a is RaBitQ == b is RaBitQ,
{
    crate::quantizer::same_quantizers_code_alike(a, b, dist, v);
}

proof fn lemma_by_cid(block_cid: Seq<u64>, upto: int)
    requires
        0 <= upto <= block_cid.len() <= u32::MAX,
        forall|b: int, c: int|
            0 <= b < c < block_cid.len() && block_cid[b] != spfresh::FREE ==> (
            #[trigger] block_cid[b]) != (#[trigger] block_cid[c]),
    ensures
        forall|b: int|
            0 <= b < upto && (#[trigger] block_cid[b]) != spfresh::FREE ==> by_cid(
                block_cid,
                upto,
            ).contains_key(block_cid[b]) && by_cid(block_cid, upto)[block_cid[b]] == b,
        forall|cid: u64| #[trigger]
            by_cid(block_cid, upto).contains_key(cid) ==> by_cid(block_cid, upto)[cid] < upto
                && block_cid[by_cid(block_cid, upto)[cid] as int] == cid && cid != spfresh::FREE,
    decreases upto,
{
    if upto > 0 {
        lemma_by_cid(block_cid, upto - 1);
        let now = by_cid(block_cid, upto);
        let before = by_cid(block_cid, upto - 1);
        assert forall|cid: u64| #[trigger] now.contains_key(cid) implies now[cid] < upto
            && block_cid[now[cid] as int] == cid && cid != spfresh::FREE by {
            if block_cid[upto - 1] == spfresh::FREE || cid != block_cid[upto - 1] {
                assert(before.contains_key(cid));
            }
        }
    }
}

proof fn lemma_free(block_cid: Seq<u64>, upto: int)
    requires
        0 <= upto <= block_cid.len() <= u32::MAX,
    ensures
        forall|i: int|
            0 <= i < free_upto(block_cid, upto).len() ==> (#[trigger] free_upto(
                block_cid,
                upto,
            )[i]).0 < upto && block_cid[free_upto(block_cid, upto)[i].0 as int] == spfresh::FREE,
        forall|i: int, j: int|
            0 <= i < j < free_upto(block_cid, upto).len() ==> (#[trigger] free_upto(
                block_cid,
                upto,
            )[i]).0 != (#[trigger] free_upto(block_cid, upto)[j]).0,
    decreases upto,
{
    if upto > 0 {
        lemma_free(block_cid, upto - 1);
        let now = free_upto(block_cid, upto);
        let before = free_upto(block_cid, upto - 1);
        assert forall|i: int| 0 <= i < now.len() implies (#[trigger] now[i]).0 < upto
            && block_cid[now[i].0 as int] == spfresh::FREE && (i < before.len() ==> now[i].0 < upto
            - 1) by {
            if i < before.len() {
                assert(now[i] == before[i]);
            }
        }
        assert forall|i: int, j: int| 0 <= i < j < now.len() implies (#[trigger] now[i]).0 != (
        #[trigger] now[j]).0 by {
            assert(now[i] == before[i]);
            if j < before.len() {
                assert(now[j] == before[j]);
            }
        }
    }
}

impl<'a, D: Distance> SPFresh<'a, D> {
    /// The graph holds the same vectors under the same ids, with the same ones deleted.
    pub open spec fn same_graph(&self, g: &IncrementalDiskANN<'a, D>) -> bool {
        &&& g.valid()
        &&& g.is_well_based()
        &&& g.dim == self.graph.dim
        &&& g.dist == self.graph.dist
        &&& g.is_plain()
        &&& g.delta.tidy()
        &&& g.base_count() == self.graph.base_count()
        &&& g.total() == self.graph.total()
        &&& g.tombstones@ == self.graph.tombstones@
        &&& forall|pos: int|
            0 <= pos < g.total() ==> #[trigger] g.vector_at(pos) == self.graph.vector_at(pos)
    }

    /// The same vectors stand in the same postings.
    pub open spec fn same_content(&self, other: &Self) -> bool {
        &&& self.dim == other.dim
        &&& self.cfg == other.cfg
        &&& self.dist == other.dist
        &&& self.next_id == other.next_id
        &&& self.live == other.live
        &&& self.deleted@ == other.deleted@
        &&& self.raw@ == other.raw@
        &&& self.block_cid@ == other.block_cid@
        &&& metric::rows(self.block_centroid@) == metric::rows(other.block_centroid@)
        &&& self.cid_block@ == other.cid_block@
        &&& meta::same_quantizer(other.quantizer, self.quantizer)
        &&& forall|b: int| #[trigger] self.posting(b) == other.posting(b)
    }

    /// Opening what was written of an index gives an index with the same content, which
    /// is well-formed like the one that was written.
    #[verifier::rlimit(40)]
    pub proof fn written_index_opens(
        &self,
        order: Seq<u64>,
        m: Result<Meta, DiskAnnError>,
        graph: IncrementalDiskANN<'a, D>,
        r: Result<Self, DiskAnnError>,
    )
        requires
            self.wf(),
            is_listing(order, self.deleted@),
            self.described(order).bytes().len() <= u64::MAX,
            Meta::read_as(self.described(order).bytes(), m),
            self.same_graph(&graph),
            Self::opened(m, Ok(graph), self.postings.data@, self.raw@, self.dist, r),
        ensures
            r is Ok,
            r->Ok_0.wf(),
            r->Ok_0.same_content(self),
            self.is_small() ==> r->Ok_0.is_small(),
            self.is_complete() ==> r->Ok_0.is_complete(),
    {
        let written = self.described(order);
        let s = written.bytes();
        assert(s.take(s.len() as int) =~= s);
        assert(m is Ok) by {
            if m is Err {
                assert(!crate::wire::begins_with(s, written.bytes()));
            }
        }
        let d = m->Ok_0;
        meta::description_is_unique(s, written, d@);
        if self.quantizer is Some {
            lemma_codes_alike(
                self.quantizer->Some_0,
                d.quantizer->Some_0,
                self.dist,
                Seq::empty(),
                Seq::empty(),
            );
        }
        assert(upkeep::raised(d.cfg) == d.cfg);
        let n = self.block_cid@.len() as int;
        assert(d.block_size() == self.postings.size());
        assert(d.postings_size() == self.postings.data@.len());
        assert(d.raw_size() == self.raw@.len());
        assert(d.fits()) by {
            assert(0 <= n) by {
            }
        }
        let o = r->Ok_0;
        assert(filled(self.postings.data@, self.postings.data@.len() as int, 0u8)
            =~= self.postings.data@);
        assert(filled(self.raw@, self.raw@.len() as int, 0u32) =~= self.raw@);
        assert(o.deleted@ =~= self.deleted@);
        assert forall|b: int| #[trigger] o.posting(b) == self.posting(b) by {
        }
        assert forall|b: int| 0 <= b < n implies #[trigger] o.centroid(b) == self.centroid(b) by {
            assert(metric::rows(o.block_centroid@)[b] == metric::rows(self.block_centroid@)[b]);
        }
        assert(o.block_centroid@.len() == n) by {
            assert(metric::rows(o.block_centroid@).len() == metric::rows(
                self.block_centroid@,
            ).len());
        }
        assert forall|b: int| #[trigger] o.is_posting(b) == self.is_posting(b) by {
        }
        assert forall|b: int, c: int|
            0 <= b < c < n && self.block_cid@[b] != spfresh::FREE implies (
        #[trigger] self.block_cid@[b]) != (#[trigger] self.block_cid@[c]) by {
            assert(self.is_posting(b));
            if self.block_cid@[b] == self.block_cid@[c] {
                assert(self.is_posting(c));
            }
        }
        lemma_by_cid(self.block_cid@, n);
        lemma_free(self.block_cid@, n);
        self.lemma_opened_wf(&o);
        assert(o.cid_block@ =~= self.cid_block@) by {
            assert forall|cid: u64| #[trigger] o.cid_block@.contains_key(cid)
                == self.cid_block@.contains_key(cid) by {
                if o.cid_block@.contains_key(cid) {
                    assert(self.is_posting(o.cid_block@[cid] as int));
                }
            }
            assert forall|cid: u64| #[trigger] o.cid_block@.contains_key(cid) implies o.cid_block@[cid]
                == self.cid_block@[cid] by {
                assert(self.is_posting(o.cid_block@[cid] as int));
            }
        }
        assert forall|id: u64| #[trigger] o.is_placed(id) == self.is_placed(id) by {
            if o.is_placed(id) {
                let c = choose|c: int| #[trigger] o.holds_id(c, id);
                assert(self.is_posting(c));
                assert(self.posting(c) == o.posting(c));
                assert(self.holds_id(c, id));
            }
            if self.is_placed(id) {
                let c = choose|c: int| #[trigger] self.holds_id(c, id);
                assert(o.is_posting(c));
                assert(self.posting(c) == o.posting(c));
                assert(o.holds_id(c, id));
            }
        }
        if self.is_complete() {
            assert forall|id: u64|
                id < o.next_id && !o.deleted@.contains(id) implies #[trigger] o.is_placed(id) by {
                assert(self.is_placed(id));
            }
        }
        if self.is_small() {
            assert forall|c: int| #[trigger] o.is_posting(c) implies o.posting(c).len()
                < o.cfg.max_posting_size by {
                assert(self.is_posting(c));
                assert(self.posting(c) == o.posting(c));
            }
        }
    }

    #[verifier::rlimit(40)]
    proof fn lemma_opened_wf(&self, o: &Self)
        requires
            self.wf(),
            o.dim == self.dim,
            o.cfg == self.cfg,
            o.dist == self.dist,
            meta::same_quantizer(self.quantizer, o.quantizer),
            self.same_graph(&o.graph),
            o.block_cid@ == self.block_cid@,
            o.block_centroid@.len() == self.block_centroid@.len(),
            forall|b: int|
                0 <= b < self.block_cid@.len() ==> #[trigger] o.centroid(b) == self.centroid(b),
            o.cid_block@ == by_cid(self.block_cid@, self.block_cid@.len() as int),
            forall|b: int|
                0 <= b < self.block_cid@.len() && (#[trigger] self.block_cid@[b]) != spfresh::FREE
                    ==> o.cid_block@.contains_key(self.block_cid@[b])
                    && o.cid_block@[self.block_cid@[b]] == b,
            forall|cid: u64| #[trigger]
                o.cid_block@.contains_key(cid) ==> o.cid_block@[cid] < self.block_cid@.len()
                    && self.block_cid@[o.cid_block@[cid] as int] == cid && cid != spfresh::FREE,
            forall|i: int|
                0 <= i < o.free@.len() ==> (#[trigger] o.free@[i]).0 < self.block_cid@.len()
                    && self.block_cid@[o.free@[i].0 as int] == spfresh::FREE,
            forall|i: int, j: int|
                0 <= i < j < o.free@.len() ==> (#[trigger] o.free@[i]).0 != (
                #[trigger] o.free@[j]).0,
            o.created@.len() == 0,
            o.postings.data@ == self.postings.data@,
            o.postings.same_shape(&self.postings),
            o.raw@ == self.raw@,
            o.next_id == self.next_id,
            o.deleted@ == self.deleted@,
            o.live == self.live,
        ensures
            o.wf(),
    {
        assert forall|b: int| #[trigger] o.posting(b) == self.posting(b) by {
        }
        assert forall|b: int| #[trigger] o.is_posting(b) == self.is_posting(b) by {
        }
        assert(o.postings.wf()) by {
            assert forall|b: int| 0 <= b < o.postings.count implies (
            #[trigger] o.postings.posting(b)).len() <= o.postings.capacity by {
                assert(self.postings.posting(b).len() <= self.postings.capacity);
            }
        }
        if self.quantizer is Some {
            lemma_codes_alike(
                self.quantizer->Some_0,
                o.quantizer->Some_0,
                self.dist,
                Seq::empty(),
                Seq::empty(),
            );
        }
        assert(o.shape()) by {
            assert forall|b: int| #[trigger] o.is_posting(b) implies o.centroid(b).len()
                == o.dim by {
                assert(self.is_posting(b));
            }
        }
        assert(o.routed()) by {
            assert forall|b: int| #[trigger] o.is_posting(b) implies o.cid_block@.contains_key(
                o.block_cid@[b],
            ) && o.cid_block@[o.block_cid@[b]] == b && o.graph_has(b) by {
                assert(self.is_posting(b));
                assert(self.graph_has(b));
                let pos = choose|pos: int|
                    0 <= pos < self.graph.total() && #[trigger] self.graph.global(pos)
                        == self.block_cid@[b] && self.graph.live_at(pos)
                        && self.graph.vector_at(pos) == self.centroid(b);
                assert(o.graph.global(pos) == o.block_cid@[b]);
                assert(o.graph.vector_at(pos) == self.graph.vector_at(pos));
            }
            assert forall|cid: u64| #[trigger] o.cid_block@.contains_key(cid) implies o.is_posting(
                o.cid_block@[cid] as int,
            ) && o.block_cid@[o.cid_block@[cid] as int] == cid by {
            }
            assert forall|pos: int|
                0 <= pos < o.graph.total() && #[trigger] o.graph.live_at(pos)
                    implies o.cid_block@.contains_key(o.graph.global(pos)) by {
                assert(self.graph.live_at(pos));
                let cid = self.graph.global(pos);
                assert(self.cid_block@.contains_key(cid));
                let b = self.cid_block@[cid] as int;
                assert(self.is_posting(b));
                assert(self.block_cid@[b] == cid);
            }
            assert forall|cid: u64| #[trigger] o.graph.tombstones@.contains(cid)
                implies o.in_graph(cid) by {
                assert(self.in_graph(cid));
                let pos = choose|pos: int|
                    0 <= pos < self.graph.total() && #[trigger] self.graph.global(pos) == cid;
                assert(o.graph.global(pos) == cid);
            }
        }
        assert(o.freed()) by {
            assert forall|i: int| 0 <= i < o.free@.len() implies (#[trigger] o.free@[i]).0
                < o.block_cid@.len() && !o.is_posting(o.free@[i].0 as int) by {
            }
        }
        assert(o.coded()) by {
            assert forall|b: int, i: int|
                o.is_posting(b) && 0 <= i < o.posting(b).len() implies {
                &&& (#[trigger] o.posting(b)[i]).id < o.next_id
                &&& o.posting(b)[i].code == o.code_for(
                    o.raw_at(o.posting(b)[i].id as int),
                    o.centroid(b),
                )
            } by {
                assert(self.is_posting(b));
                assert(o.posting(b) == self.posting(b));
                let e = self.posting(b)[i];
                assert(e.id < self.next_id);
                assert(o.centroid(b) == self.centroid(b));
                if self.quantizer is Some {
                    lemma_codes_alike(
                        self.quantizer->Some_0,
                        o.quantizer->Some_0,
                        self.dist,
                        self.raw_at(e.id as int),
                        self.centroid(b),
                    );
                }
            }
        }
        assert(o.unique()) by {
            assert forall|b: int, i: int, c: int, j: int|
                o.is_posting(b) && o.is_posting(c) && 0 <= i < o.posting(b).len() && 0 <= j
                    < o.posting(c).len() && (#[trigger] o.posting(b)[i]).id == (
                #[trigger] o.posting(c)[j]).id implies b == c && i == j by {
                assert(self.is_posting(b) && self.is_posting(c));
                assert(self.posting(b)[i].id == self.posting(c)[j].id);
            }
        }
    }
}

} // verus!
