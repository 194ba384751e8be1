//! The description of an index of postings.
use crate::bytes;
use crate::error::DiskAnnError;
use crate::metric;
use crate::quantizer;
use crate::quantizer::QuantizerState;
use crate::spfresh::SPFreshConfig;
use crate::wire;
use vstd::prelude::*;

verus! {

/// Bytes of the head of a description.
pub const HEAD: usize = 53;

/// What is told of an index of postings beside its blocks, vectors and graph.
pub struct Meta {
    pub dim: usize,
    pub cfg: SPFreshConfig,
    pub quantizer: Option<QuantizerState>,
    pub block_cid: Vec<u64>,
    pub block_centroid: Vec<Vec<u32>>,
    pub next_id: u64,
    pub deleted: Vec<u64>,
    pub live: usize,
}

/// A description as a value.
#[verifier::ext_equal]
pub struct Description {
    pub dim: usize,
    pub cfg: SPFreshConfig,
    pub quantizer: Option<QuantizerState>,
    pub block_cid: Seq<u64>,
    pub block_centroid: Seq<Seq<u32>>,
    pub next_id: u64,
    pub deleted: Seq<u64>,
    pub live: usize,
}

impl Description {
    /// The description in bytes: the head, the quantizer where there is one, and the
    /// rest.
    pub open spec fn bytes(&self) -> Seq<u8> {
        head_bytes(self.dim, self.cfg, self.quantizer is Some) + (record_bytes(self.quantizer)
            + self.tail())
    }

    /// The bytes of what follows the quantizer.
    pub open spec fn tail(&self) -> Seq<u8> {
        wire::meta_tail_bytes(
            self.block_cid,
            self.block_centroid,
            self.next_id,
            self.deleted,
            self.live,
        )
    }

    /// The same fields.
    pub open spec fn same(&self, other: &Description) -> bool {
        &&& self.dim == other.dim
        &&& self.cfg == other.cfg
        &&& same_quantizer(self.quantizer, other.quantizer)
        &&& self.block_cid == other.block_cid
        &&& self.block_centroid == other.block_centroid
        &&& self.next_id == other.next_id
        &&& self.deleted == other.deleted
        &&& self.live == other.live
    }
}

/// The bytes of the dimension and the configuration.
pub open spec fn head_bytes(dim: usize, cfg: SPFreshConfig, coded: bool) -> Seq<u8> {
    wire::meta_head_bytes(
        dim,
        cfg.max_posting_size,
        cfg.min_posting_size,
        cfg.probe_ratio,
        cfg.rerank_size,
        cfg.reassign_neighbors,
        cfg.centroid_beam,
        coded,
    )
}

/// The bytes of a quantizer, where there is one.
pub open spec fn record_bytes(quantizer: Option<QuantizerState>) -> Seq<u8> {
    match quantizer {
        Some(q) => q.record(),
        None => Seq::empty(),
    }
}

/// Quantizers with the same fields, or none.
pub open spec fn same_quantizer(a: Option<QuantizerState>, b: Option<QuantizerState>) -> bool {
    match (a, b) {
        (Some(x), Some(y)) => x.same(&y),
        (None, None) => true,
        _ => false,
    }
}

/// Writes a description with these fields.
pub fn describe(
    dim: usize,
    cfg: SPFreshConfig,
    quantizer: &Option<QuantizerState>,
    block_cid: &Vec<u64>,
    block_centroid: &Vec<Vec<u32>>,
    next_id: u64,
    deleted: &Vec<u64>,
    live: usize,
) -> (r: Vec<u8>)
    ensures
        r@ == (Description {
            dim,
            cfg,
            quantizer: *quantizer,
            block_cid: block_cid@,
            block_centroid: metric::rows(block_centroid@),
            next_id,
            deleted: deleted@,
            live,
        }).bytes(),
{
    let coded: Option<()> = match quantizer {
        Some(_) => Some(()),
        None => None,
    };
    let mut r: Vec<u8> = match wire::serialize_meta_head(
        dim,
        cfg.max_posting_size,
        cfg.min_posting_size,
        cfg.probe_ratio,
        cfg.rerank_size,
        cfg.reassign_neighbors,
        cfg.centroid_beam,
        coded,
    ) {
        Ok(head) => head,
        Err(_) => Vec::new(),
    };
    match quantizer {
        Some(q) => {
            let record = q.to_record();
            bytes::push_slice(&mut r, record.as_slice());
        },
        None => {},
    }
    let tail: Vec<u8> = match wire::serialize_meta_tail(
        block_cid,
        block_centroid,
        next_id,
        deleted,
        live,
    ) {
        Ok(tail) => tail,
        Err(_) => Vec::new(),
    };
    bytes::push_slice(&mut r, tail.as_slice());
    assert(r@ =~= (Description {
        dim,
        cfg,
        quantizer: *quantizer,
        block_cid: block_cid@,
        block_centroid: metric::rows(block_centroid@),
        next_id,
        deleted: deleted@,
        live,
    }).bytes());
    r
}

impl Meta {
    pub open spec fn view(&self) -> Description {
        Description {
            dim: self.dim,
            cfg: self.cfg,
            quantizer: self.quantizer,
            block_cid: self.block_cid@,
            block_centroid: metric::rows(self.block_centroid@),
            next_id: self.next_id,
            deleted: self.deleted@,
            live: self.live,
        }
    }

    /// Writes the description.
    pub fn to_bytes(&self) -> (r: Vec<u8>)
        ensures
            r@ == self@.bytes(),
    {
        describe(
            self.dim,
            self.cfg,
            &self.quantizer,
            &self.block_cid,
            &self.block_centroid,
            self.next_id,
            &self.deleted,
            self.live,
        )
    }

    /// Reading a description from `s` gives `r`.
    pub open spec fn read_as(s: Seq<u8>, r: Result<Meta, DiskAnnError>) -> bool {
        match r {
            Ok(m) => wire::begins_with(s, m@.bytes()),
            Err(e) => {
                &&& forall|m: Description| !wire::begins_with(s, #[trigger] m.bytes())
                &&& e is Bincode
            },
        }
    }

    /// Reads a description: it succeeds when the bytes start with one.
    #[verifier::rlimit(40)]
    pub fn from_bytes(s: &[u8]) -> (r: Result<Meta, DiskAnnError>)
        ensures
            Self::read_as(s@, r),
    {
        let ghost all = s@;
        let len: usize = s.len();
        let head = match wire::deserialize_meta_head(s) {
            Ok(head) => head,
            Err(e) => {
                proof {
                    assert forall|m: Description| !wire::begins_with(all, #[trigger] m.bytes()) by {
                        if wire::begins_with(all, m.bytes()) {
                            lemma_parts(all, m);
                        }
                    }
                    assert forall|dim: usize, cfg: SPFreshConfig|
                        !wire::begins_with(all, #[trigger] head_bytes(dim, cfg, true)) by {
                    }
                }
                return Err(DiskAnnError::Bincode(e));
            },
        };
        let cfg = SPFreshConfig {
            max_posting_size: head.1,
            min_posting_size: head.2,
            probe_ratio: head.3,
            rerank_size: head.4,
            reassign_neighbors: head.5,
            centroid_beam: head.6,
        };
        let ghost coded = head.7 is Some;
        proof {
            assert(wire::begins_with(all, head_bytes(head.0, cfg, coded)));
            lemma_head_len(head.0, cfg, coded);
            lemma_presence(all, head.0, cfg, coded);
        }
        let rest = vstd::slice::slice_subrange(s, HEAD, len);
        assert(rest@ =~= all.skip(HEAD as int));
        assert(rest@.len() >= 4 ==> bytes::word_at(rest@, 0) == bytes::word_at(all, HEAD as int))
            by {
            if rest@.len() >= 4 {
                assert(rest@.subrange(0, 4) =~= all.subrange(HEAD as int, HEAD + 4));
            }
        }
        proof {
            assert forall|dim: usize, c: SPFreshConfig|
                wire::begins_with(all, #[trigger] head_bytes(dim, c, true)) implies coded by {
                lemma_presence(all, dim, c, true);
            }
        }
        let quantizer: Option<QuantizerState> = match head.7 {
            Some(_) => match QuantizerState::from_record(rest) {
                Ok(q) => Some(q),
                Err(e) => {
                    proof {
                        assert forall|m: Description| !wire::begins_with(all, #[trigger] m.bytes()) by {
                            if wire::begins_with(all, m.bytes()) {
                                lemma_parts(all, m);
                                lemma_heads_agree(all, m, head.0, cfg, coded);
                                assert(wire::begins_with(rest@, m.quantizer->Some_0.record()));
                            }
                        }
                    }
                    return Err(e);
                },
            },
            None => None,
        };
        let size: usize = match &quantizer {
            Some(q) => q.to_record().len(),
            None => 0,
        };
        assert(size == record_bytes(quantizer).len());
        let have: usize = rest.len();
        let end = vstd::slice::slice_subrange(rest, size, have);
        assert(end@ =~= all.skip(HEAD as int).skip(size as int));
        proof {
            assert forall|m: Description| wire::begins_with(all, #[trigger] m.bytes()) implies
                wire::begins_with(end@, m.tail()) by {
                lemma_parts(all, m);
                lemma_heads_agree(all, m, head.0, cfg, coded);
                lemma_records_agree(rest@, m.quantizer, m.tail(), quantizer);
            }
        }
        match wire::deserialize_meta_tail(end) {
            Ok(t) => {
                let m = Meta {
                    dim: head.0,
                    cfg,
                    quantizer,
                    block_cid: t.0,
                    block_centroid: t.1,
                    next_id: t.2,
                    deleted: t.3,
                    live: t.4,
                };
                proof {
                    assert(wire::begins_with(rest@, record_bytes(quantizer))) by {
                        if quantizer is None {
                            assert(rest@.take(0) =~= record_bytes(quantizer));
                        }
                    }
                    lemma_joined(
                        all,
                        head_bytes(head.0, cfg, coded),
                        record_bytes(quantizer),
                        m@.tail(),
                    );
                }
                Ok(m)
            },
            Err(e) => {
                proof {
                    assert forall|m: Description| !wire::begins_with(all, #[trigger] m.bytes()) by {
                        if wire::begins_with(all, m.bytes()) {
                            assert(wire::begins_with(end@, m.tail()));
                        }
                    }
                    if coded {
                        quantizer::lemma_record_tag(rest@, quantizer->Some_0);
                    }
                }
                Err(DiskAnnError::Bincode(e))
            },
        }
    }
}

proof fn lemma_head_len(dim: usize, cfg: SPFreshConfig, coded: bool)
    ensures
        head_bytes(dim, cfg, coded).len() == HEAD,
        head_bytes(dim, cfg, coded)[HEAD - 1] == if coded {
            1u8
        } else {
            0u8
        },
{
    bytes::lemma_le64(dim as u64);
    bytes::lemma_le64(cfg.max_posting_size as u64);
    bytes::lemma_le64(cfg.min_posting_size as u64);
    bytes::lemma_le32(cfg.probe_ratio);
    bytes::lemma_le64(cfg.rerank_size as u64);
    bytes::lemma_le64(cfg.reassign_neighbors as u64);
    bytes::lemma_le64(cfg.centroid_beam as u64);
}

proof fn lemma_presence(s: Seq<u8>, dim: usize, cfg: SPFreshConfig, coded: bool)
    requires
        wire::begins_with(s, head_bytes(dim, cfg, coded)),
    ensures
        s.len() >= HEAD,
        coded <==> s[HEAD - 1] == 1,
{
    lemma_head_len(dim, cfg, coded);
    assert(s.take(HEAD as int)[HEAD - 1] == s[HEAD - 1]);
}

/// A description begins with its head, which its quantizer and the rest follow.
proof fn lemma_parts(s: Seq<u8>, m: Description)
    requires
        wire::begins_with(s, m.bytes()),
    ensures
        wire::begins_with(s, head_bytes(m.dim, m.cfg, m.quantizer is Some)),
        s.len() >= HEAD,
        wire::begins_with(s.skip(HEAD as int), record_bytes(m.quantizer) + m.tail()),
        wire::begins_with(s.skip(HEAD as int), record_bytes(m.quantizer)),
{
    let h = head_bytes(m.dim, m.cfg, m.quantizer is Some);
    let r = record_bytes(m.quantizer);
    lemma_head_len(m.dim, m.cfg, m.quantizer is Some);
    assert(m.bytes() == h + (r + m.tail()));
    assert(s.take(m.bytes().len() as int).take(HEAD as int) =~= s.take(HEAD as int));
    assert(m.bytes().take(HEAD as int) =~= h);
    let rest = s.skip(HEAD as int);
    assert(s.take(m.bytes().len() as int).skip(HEAD as int) =~= rest.take((r + m.tail()).len() as int));
    assert(m.bytes().skip(HEAD as int) =~= r + m.tail());
    assert((r + m.tail()).take(r.len() as int) =~= r);
    assert(rest.take((r + m.tail()).len() as int).take(r.len() as int) =~= rest.take(r.len() as int));
}

proof fn lemma_heads_agree(s: Seq<u8>, m: Description, dim: usize, cfg: SPFreshConfig, coded: bool)
    requires
        wire::begins_with(s, head_bytes(m.dim, m.cfg, m.quantizer is Some)),
        wire::begins_with(s, head_bytes(dim, cfg, coded)),
    ensures
        m.quantizer is Some == coded,
        m.dim == dim,
        m.cfg == cfg,
{
    lemma_presence(s, m.dim, m.cfg, m.quantizer is Some);
    lemma_presence(s, dim, cfg, coded);
    let p = wire::presence_bytes(coded);
    let a6 = bytes::le64(m.cfg.centroid_beam as u64) + p;
    let b6 = bytes::le64(cfg.centroid_beam as u64) + p;
    let a5 = bytes::le64(m.cfg.reassign_neighbors as u64) + a6;
    let b5 = bytes::le64(cfg.reassign_neighbors as u64) + b6;
    let a4 = bytes::le64(m.cfg.rerank_size as u64) + a5;
    let b4 = bytes::le64(cfg.rerank_size as u64) + b5;
    let a3 = bytes::le32(m.cfg.probe_ratio) + a4;
    let b3 = bytes::le32(cfg.probe_ratio) + b4;
    let a2 = bytes::le64(m.cfg.min_posting_size as u64) + a3;
    let b2 = bytes::le64(cfg.min_posting_size as u64) + b3;
    let a1 = bytes::le64(m.cfg.max_posting_size as u64) + a2;
    let b1 = bytes::le64(cfg.max_posting_size as u64) + b2;
    wire::lemma_same_u64(s, m.dim as u64, a1, dim as u64, b1);
    let s1 = s.skip(8);
    wire::lemma_same_u64(
        s1,
        m.cfg.max_posting_size as u64,
        a2,
        cfg.max_posting_size as u64,
        b2,
    );
    let s2 = s1.skip(8);
    wire::lemma_same_u64(
        s2,
        m.cfg.min_posting_size as u64,
        a3,
        cfg.min_posting_size as u64,
        b3,
    );
    let s3 = s2.skip(8);
    wire::lemma_same_u32(s3, m.cfg.probe_ratio, a4, cfg.probe_ratio, b4);
    let s4 = s3.skip(4);
    wire::lemma_same_u64(s4, m.cfg.rerank_size as u64, a5, cfg.rerank_size as u64, b5);
    let s5 = s4.skip(8);
    wire::lemma_same_u64(
        s5,
        m.cfg.reassign_neighbors as u64,
        a6,
        cfg.reassign_neighbors as u64,
        b6,
    );
    let s6 = s5.skip(8);
    wire::lemma_same_u64(s6, m.cfg.centroid_beam as u64, p, cfg.centroid_beam as u64, p);
}

/// The same quantizer has the same record.
pub proof fn lemma_same_record(a: Option<QuantizerState>, b: Option<QuantizerState>)
    requires
        same_quantizer(a, b),
    ensures
        record_bytes(a) == record_bytes(b),
{
}

proof fn lemma_records_agree(
    s: Seq<u8>,
    a: Option<QuantizerState>,
    tail: Seq<u8>,
    b: Option<QuantizerState>,
)
    requires
        s.len() <= u64::MAX,
        a is Some == b is Some,
        wire::begins_with(s, record_bytes(a) + tail),
        wire::begins_with(s, record_bytes(a)),
        wire::begins_with(s, record_bytes(b)),
    ensures
        same_quantizer(a, b),
        wire::begins_with(s.skip(record_bytes(b).len() as int), tail),
{
    if a is Some {
        quantizer::record_is_unique(s, a->Some_0, b->Some_0);
    }
    lemma_same_record(a, b);
    let r = record_bytes(a);
    let none = Seq::<u8>::empty();
    assert(r + none =~= r);
    wire::lemma_same_start(s, r, tail, r, none);
}

proof fn lemma_joined(s: Seq<u8>, a: Seq<u8>, b: Seq<u8>, c: Seq<u8>)
    requires
        wire::begins_with(s, a),
        wire::begins_with(s.skip(a.len() as int), b),
        wire::begins_with(s.skip(a.len() as int).skip(b.len() as int), c),
    ensures
        wire::begins_with(s, a + (b + c)),
{
    let n = (a.len() + b.len() + c.len()) as int;
    let rest = s.skip(a.len() as int);
    let end = rest.skip(b.len() as int);
    assert(s.take(n) =~= s.take(a.len() as int) + (rest.take(b.len() as int) + end.take(
        c.len() as int,
    )));
}

/// Bytes start with at most one description.
pub proof fn description_is_unique(s: Seq<u8>, a: Description, b: Description)
    requires
        s.len() <= u64::MAX,
        wire::begins_with(s, a.bytes()),
        wire::begins_with(s, b.bytes()),
    ensures
        a.same(&b),
{
    lemma_parts(s, a);
    lemma_parts(s, b);
    lemma_heads_agree(s, a, b.dim, b.cfg, b.quantizer is Some);
    let rest = s.skip(HEAD as int);
    lemma_records_agree(rest, a.quantizer, a.tail(), b.quantizer);
    lemma_records_agree(rest, b.quantizer, b.tail(), b.quantizer);
    let end = rest.skip(record_bytes(b.quantizer).len() as int);
    let none = Seq::<u8>::empty();
    let a4 = bytes::le64(a.live as u64) + none;
    let b4 = bytes::le64(b.live as u64) + none;
    let a3 = wire::long_list_bytes(a.deleted) + a4;
    let b3 = wire::long_list_bytes(b.deleted) + b4;
    let a2 = bytes::le64(a.next_id) + a3;
    let b2 = bytes::le64(b.next_id) + b3;
    let a1 = wire::table_bytes(a.block_centroid) + a2;
    let b1 = wire::table_bytes(b.block_centroid) + b2;
    assert(a.tail() =~= wire::long_list_bytes(a.block_cid) + a1);
    assert(b.tail() =~= wire::long_list_bytes(b.block_cid) + b1);
    wire::lemma_same_longs(end, a.block_cid, a1, b.block_cid, b1);
    let s1 = end.skip(wire::long_list_bytes(a.block_cid).len() as int);
    wire::lemma_same_table(
        s1,
        a.block_centroid,
        a2,
        b.block_centroid,
        b2,
    );
    let s2 = s1.skip(wire::table_bytes(a.block_centroid).len() as int);
    wire::lemma_same_u64(s2, a.next_id, a3, b.next_id, b3);
    let s3 = s2.skip(8);
    wire::lemma_same_longs(s3, a.deleted, a4, b.deleted, b4);
    let s4 = s3.skip(wire::long_list_bytes(a.deleted).len() as int);
    wire::lemma_same_u64(s4, a.live as u64, none, b.live as u64, none);
}

/// Reading what was written gives the description back, whatever follows it.
pub proof fn description_reads_back(m: Description, rest: Seq<u8>, r: Result<Meta, DiskAnnError>)
    requires
        (m.bytes() + rest).len() <= u64::MAX,
        Meta::read_as(m.bytes() + rest, r),
    ensures
        r is Ok,
        m.same(&r->Ok_0@),
{
    let s = m.bytes() + rest;
    assert(s.take(m.bytes().len() as int) =~= m.bytes());
    assert(wire::begins_with(s, m.bytes()));
    description_is_unique(s, m, r->Ok_0@);
}

} // verus!
