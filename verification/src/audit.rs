//! Whether an index of postings is well-formed.
use crate::image;
use crate::metric::Distance;
use crate::spfresh;
use crate::spfresh::SPFresh;
use crate::spfresh::SPFreshConfig;
use std::collections::HashMap;
use std::collections::HashSet;
use vstd::prelude::*;

verus! {

/// The keys of a map, each once, in some order.
fn keys_of(m: &HashMap<u64, u32>) -> (r: Vec<u64>)
    ensures
        forall|k: u64| r@.contains(k) <==> #[trigger] m@.contains_key(k),
{
    broadcast use vstd::std_specs::hash::group_hash_axioms;

    let ghost walk = vstd::std_specs::hash::spec_keys_iter(m);
    let ghost items = vstd::std_specs::iter::IteratorSpec::remaining(&walk).unref();
    let mut r: Vec<u64> = Vec::new();
    for k in walk: m.keys()
        invariant
            r@.len() == walk.index(),
            walk.seq().unref() == items,
            forall|j: int| 0 <= j < r@.len() ==> #[trigger] r@[j] == items[j],
    {
        r.push(*k);
    }
    assert(r@ =~= items);
    assert forall|k: u64| r@.contains(k) <==> #[trigger] m@.contains_key(k) by {
        assert(items.to_set().contains(k) <==> m@.dom().contains(k));
    }
    r
}

fn sound(cfg: &SPFreshConfig) -> (r: bool)
    ensures
        r == spfresh::is_sound(cfg),
{
    2 <= cfg.max_posting_size && cfg.max_posting_size < u32::MAX as usize && (
    cfg.max_posting_size as u64) * 2 < u32::MAX as u64 && cfg.centroid_beam <= usize::MAX / 16
        && cfg.reassign_neighbors <= usize::MAX / 16 - 2
}

fn same_words(a: &[u32], b: &[u32]) -> (r: bool)
    ensures
        r == (a@ == b@),
{
    if a.len() != b.len() {
        return false;
    }
    let n: usize = a.len();
    let mut i: usize = 0;
    while i < n
        invariant
            i <= n == a@.len() == b@.len(),
            forall|j: int| 0 <= j < i ==> #[trigger] a@[j] == b@[j],
        decreases n - i,
    {
        if a[i] != b[i] {
            return false;
        }
        i = i + 1;
    }
    assert(a@ =~= b@);
    true
}

fn same_bytes(a: &[u8], b: &[u8]) -> (r: bool)
    ensures
        r == (a@ == b@),
{
    if a.len() != b.len() {
        return false;
    }
    let n: usize = a.len();
    let mut i: usize = 0;
    while i < n
        invariant
            i <= n == a@.len() == b@.len(),
            forall|j: int| 0 <= j < i ==> #[trigger] a@[j] == b@[j],
        decreases n - i,
    {
        if a[i] != b[i] {
            return false;
        }
        i = i + 1;
    }
    assert(a@ =~= b@);
    true
}

impl<'a, D: Distance> SPFresh<'a, D> {
    fn check_shape(&self) -> (r: bool)
        ensures
            r == self.shape(),
    {
        if !sound(&self.cfg) || !self.postings.validate() {
            return false;
        }
        let code: usize = match &self.quantizer {
            Some(q) => {
                if !q.validate() || q.dim() != self.dim {
                    return false;
                }
                q.code_size()
            },
            None => match self.dim.checked_mul(4) {
                Some(n) => n,
                None => {
                    return false;
                },
            },
        };
        let n: usize = self.block_cid.len();
        if self.postings.capacity != 2 * self.cfg.max_posting_size || self.postings.code_size
            != code || self.postings.count != n || self.block_centroid.len() != n || n
            >= u32::MAX as usize {
            return false;
        }
        let mut b: usize = 0;
        while b < n
            invariant
                b <= n == self.block_cid@.len() == self.block_centroid@.len() < u32::MAX,
                forall|c: int|
                    0 <= c < b && #[trigger] self.is_posting(c) ==> self.centroid(c).len()
                        == self.dim,
            decreases n - b,
        {
            if self.is_live(b as u32) && self.block_centroid[b].len() != self.dim {
                assert(self.is_posting(b as int));
                assert(self.centroid(b as int).len() != self.dim);
                return false;
            }
            b = b + 1;
        }
        true
    }

    /// Whether the graph holds the centroid of a block.
    fn check_centroid(&self, b: usize) -> (r: bool)
        requires
            self.shape(),
            self.graph.valid(),
            self.is_posting(b as int),
        ensures
            r == self.graph_has(b as int),
    {
        broadcast use vstd::std_specs::hash::group_hash_axioms;

        let cid: u64 = self.block_cid[b];
        match self.graph.get_vector(cid) {
            Some(v) => {
                let ghost at = choose|pos: int|
                    0 <= pos < self.graph.total() && #[trigger] self.graph.global(pos) == cid && v@
                        == self.graph.vector_at(pos);
                let same = same_words(v.as_slice(), self.block_centroid[b].as_slice());
                let gone = self.graph.tombstones.contains(&cid);
                proof {
                    assert forall|pos: int|
                        0 <= pos < self.graph.total() && #[trigger] self.graph.global(pos)
                            == cid implies pos == at by {
                        self.lemma_global(pos, at);
                    }
                    if same && !gone {
                        assert(self.graph.global(at) == self.block_cid@[b as int]
                            && self.graph.live_at(at) && self.graph.vector_at(at)
                            == self.centroid(b as int));
                    }
                }
                same && !gone
            },
            None => false,
        }
    }

    proof fn lemma_global(&self, p: int, q: int)
        requires
            self.graph.valid(),
            0 <= p < self.graph.total(),
            0 <= q < self.graph.total(),
            self.graph.global(p) == self.graph.global(q),
        ensures
            p == q,
    {
    }

    #[verifier::rlimit(40)]
    fn check_linked(&self) -> (r: bool)
        requires
            self.shape(),
        ensures
            r == self.linked(),
    {
        broadcast use vstd::std_specs::hash::group_hash_axioms;

        let g = &self.graph;
        if !g.validate() || g.dim != self.dim || !g.delta.is_tidy() {
            return false;
        }
        if g.base_labels.is_some() || g.num_label_fields != 0 || g.quantizer.is_some()
            || g.base_codes.is_some() || g.code_size != 0 || g.rerank_size != 0 {
            return false;
        }
        let n: usize = self.block_cid.len();
        let mut b: usize = 0;
        while b < n
            invariant
                b <= n == self.block_cid@.len(),
                self.shape(),
                self.graph.valid(),
                forall|c: int|
                    0 <= c < b && #[trigger] self.is_posting(c) ==> self.cid_block@.contains_key(
                        self.block_cid@[c],
                    ) && self.cid_block@[self.block_cid@[c]] == c && self.graph_has(c),
            decreases n - b,
        {
            broadcast use vstd::std_specs::hash::group_hash_axioms;

            if self.is_live(b as u32) {
                assert(self.is_posting(b as int));
                let listed = match self.cid_block.get(&self.block_cid[b]) {
                    Some(c) => *c as usize == b,
                    None => false,
                };
                if !listed || !self.check_centroid(b) {
                    return false;
                }
            }
            b = b + 1;
        }
        let cids = keys_of(&self.cid_block);
        let m: usize = cids.len();
        let mut i: usize = 0;
        while i < m
            invariant
                i <= m == cids@.len(),
                self.shape(),
                forall|k: u64| cids@.contains(k) <==> #[trigger] self.cid_block@.contains_key(k),
                forall|j: int|
                    0 <= j < i ==> self.is_listed(#[trigger] cids@[j]),
            decreases m - i,
        {
            broadcast use vstd::std_specs::hash::group_hash_axioms;

            let cid: u64 = cids[i];
            assert(cids@.contains(cid));
            assert(self.cid_block@.contains_key(cid));
            let at: usize = match self.cid_block.get(&cid) {
                Some(c) => *c as usize,
                None => 0,
            };
            if at >= self.block_cid.len() || self.block_cid[at] == spfresh::FREE
                || self.block_cid[at] != cid {
                return false;
            }
            assert(self.is_listed(cid));
            i = i + 1;
        }
        assert forall|cid: u64| #[trigger] self.cid_block@.contains_key(cid) implies self.is_posting(
            self.cid_block@[cid] as int,
        ) && self.block_cid@[self.cid_block@[cid] as int] == cid by {
            assert(cids@.contains(cid));
            let j = choose|j: int| 0 <= j < m && cids@[j] == cid;
            assert(self.is_listed(cids@[j]));
        }
        if !self.check_live() {
            return false;
        }
        let gone = image::members(&self.graph.tombstones);
        let g: usize = gone.len();
        let mut i: usize = 0;
        while i < g
            invariant
                i <= g == gone@.len(),
                self.graph.valid(),
                gone@.to_set() == self.graph.tombstones@,
                forall|j: int| 0 <= j < i ==> self.in_graph(#[trigger] gone@[j]),
            decreases g - i,
        {
            let cid: u64 = gone[i];
            assert(gone@.to_set().contains(cid));
            match self.graph.get_vector(cid) {
                Some(_) => {
                    assert(self.in_graph(cid));
                },
                None => {
                    assert(!self.in_graph(cid));
                    return false;
                },
            }
            i = i + 1;
        }
        assert forall|cid: u64| #[trigger] self.graph.tombstones@.contains(cid) implies self.in_graph(
            cid,
        ) by {
            assert(gone@.to_set().contains(cid));
            let j = choose|j: int| 0 <= j < g && gone@[j] == cid;
            assert(self.in_graph(gone@[j]));
        }
        true
    }

    /// The block of a centroid has it.
    spec fn is_listed(&self, cid: u64) -> bool {
        self.is_posting(self.cid_block@[cid] as int) && self.block_cid@[self.cid_block@[cid] as int]
            == cid
    }

    /// Whether each live vector of the graph is a centroid.
    fn check_live(&self) -> (r: bool)
        requires
            self.graph.valid(),
        ensures
            r == (forall|pos: int|
                0 <= pos < self.graph.total() && #[trigger] self.graph.live_at(pos)
                    ==> self.cid_block@.contains_key(self.graph.global(pos))),
    {
        broadcast use vstd::std_specs::hash::group_hash_axioms;

        let base: usize = match &self.graph.base {
            Some(b) => b.num_vectors,
            None => 0,
        };
        let total: usize = base + self.graph.delta.vectors.len();
        let mut pos: usize = 0;
        while pos < total
            invariant
                pos <= total == self.graph.total(),
                base == self.graph.base_count(),
                self.graph.valid(),
                forall|p: int|
                    0 <= p < pos && #[trigger] self.graph.live_at(p)
                        ==> self.cid_block@.contains_key(self.graph.global(p)),
            decreases total - pos,
        {
            broadcast use vstd::std_specs::hash::group_hash_axioms;

            let id: u64 = if pos < base {
                pos as u64
            } else {
                crate::delta::DELTA_ID_OFFSET + (pos - base) as u64
            };
            assert(id == self.graph.global(pos as int));
            if !self.graph.tombstones.contains(&id) && !self.cid_block.contains_key(&id) {
                assert(self.graph.live_at(pos as int));
                return false;
            }
            pos = pos + 1;
        }
        true
    }

    fn check_freed(&self) -> (r: bool)
        ensures
            r == self.freed(),
    {
        broadcast use vstd::std_specs::hash::group_hash_axioms;

        let n: usize = self.block_cid.len();
        let mut seen: HashSet<u32> = HashSet::new();
        let f: usize = self.free.len();
        let mut i: usize = 0;
        while i < f
            invariant
                i <= f == self.free@.len(),
                n == self.block_cid@.len(),
                forall|j: int|
                    0 <= j < i ==> (#[trigger] self.free@[j]).0 < n && !self.is_posting(
                        self.free@[j].0 as int,
                    ),
                forall|j: int, k: int|
                    0 <= j < k < i ==> (#[trigger] self.free@[j]).0 != (#[trigger] self.free@[k]).0,
                forall|b: u32| #[trigger]
                    seen@.contains(b) <==> exists|j: int|
                        0 <= j < i && (#[trigger] self.free@[j]).0 == b,
            decreases f - i,
        {
            broadcast use vstd::std_specs::hash::group_hash_axioms;

            let b: u32 = self.free[i].0;
            if b as usize >= n || self.block_cid[b as usize] != spfresh::FREE {
                assert(self.free@[i as int].0 == b);
                return false;
            }
            let ghost was = seen@;
            if !seen.insert(b) {
                let ghost j = choose|j: int| 0 <= j < i && (#[trigger] self.free@[j]).0 == b;
                assert(self.free@[j].0 == self.free@[i as int].0);
                return false;
            }
            proof {
                assert forall|c: u32| #[trigger] seen@.contains(c) <==> exists|j: int|
                    0 <= j < i + 1 && (#[trigger] self.free@[j]).0 == c by {
                    if was.contains(c) {
                        let j = choose|j: int| 0 <= j < i && (#[trigger] self.free@[j]).0 == c;
                        assert(self.free@[j].0 == c);
                    }
                    if c == b {
                        assert(self.free@[i as int].0 == c);
                    }
                    if exists|j: int| 0 <= j < i + 1 && (#[trigger] self.free@[j]).0 == c {
                        let j = choose|j: int| 0 <= j < i + 1 && (#[trigger] self.free@[j]).0 == c;
                        if j < i {
                            assert(was.contains(c));
                        }
                    }
                }
                assert forall|j: int, k: int| 0 <= j < k < i + 1 implies (
                #[trigger] self.free@[j]).0 != (#[trigger] self.free@[k]).0 by {
                    if k == i && self.free@[j].0 == b {
                        assert(was.contains(b));
                    }
                }
            }
            i = i + 1;
        }
        let c: usize = self.created.len();
        let mut i: usize = 0;
        while i < c
            invariant
                i <= c == self.created@.len(),
                n == self.block_cid@.len(),
                forall|j: int| 0 <= j < i ==> (#[trigger] self.created@[j]) < n,
            decreases c - i,
        {
            if self.created[i] as usize >= n {
                return false;
            }
            i = i + 1;
        }
        true
    }

    fn check_stored(&self) -> (r: bool)
        ensures
            r == self.stored(),
    {
        broadcast use vstd::std_specs::hash::group_hash_axioms;

        let have: usize = self.raw.len();
        if self.next_id > usize::MAX as u64 {
            return false;
        }
        proof {
            let n = self.next_id as int;
            let d = self.dim as int;
            assert(n * d >= 0) by (nonlinear_arith)
                requires
                    n >= 0,
                    d >= 0,
            ;
        }
        match (self.next_id as usize).checked_mul(self.dim) {
            Some(words) => if words != have {
                return false;
            },
            None => {
                return false;
            },
        }
        let gone = image::members(&self.deleted);
        let n: usize = gone.len();
        let mut i: usize = 0;
        while i < n
            invariant
                i <= n == gone@.len(),
                gone@.to_set() == self.deleted@,
                forall|j: int| 0 <= j < i ==> (#[trigger] gone@[j]) < self.next_id,
            decreases n - i,
        {
            if gone[i] >= self.next_id {
                assert(gone@.to_set().contains(gone@[i as int]));
                return false;
            }
            i = i + 1;
        }
        proof {
            vstd::seq_lib::seq_to_set_is_finite(gone@);
            assert forall|id: u64| #[trigger] self.deleted@.contains(id) implies id < self.next_id by {
                assert(gone@.to_set().contains(id));
                let j = choose|j: int| 0 <= j < n && gone@[j] == id;
                assert(gone@[j] < self.next_id);
            }
        }
        self.live as u64 <= self.next_id && n as u64 == self.next_id - self.live as u64
    }

    /// The first entries, in the order of blocks, up to entry `i` of block `b`, name
    /// stored vectors by their codes.
    spec fn coded_upto(&self, b: int, i: int) -> bool {
        forall|c: int, j: int|
            self.is_posting(c) && 0 <= j < self.posting(c).len() && (c < b || (c == b && j < i))
                ==> {
                &&& (#[trigger] self.posting(c)[j]).id < self.next_id
                &&& self.posting(c)[j].code == self.code_for(
                    self.raw_at(self.posting(c)[j].id as int),
                    self.centroid(c),
                )
            }
    }

    /// An entry before entry `i` of block `b` is of this vector.
    spec fn met(&self, b: int, i: int, id: u64) -> bool {
        exists|c: int, j: int|
            self.is_posting(c) && 0 <= j < self.posting(c).len() && (c < b || (c == b && j < i))
                && (#[trigger] self.posting(c)[j]).id == id
    }

    spec fn unique_upto(&self, b: int, i: int) -> bool {
        forall|c: int, j: int, d: int, k: int|
            self.is_posting(c) && self.is_posting(d) && 0 <= j < self.posting(c).len() && 0 <= k
                < self.posting(d).len() && (c < b || (c == b && j < i)) && (d < b || (d == b && k
                < i)) && (#[trigger] self.posting(c)[j]).id == (#[trigger] self.posting(d)[k]).id
                ==> c == d && j == k
    }

    #[verifier::rlimit(40)]
    fn check_entries(&self) -> (r: bool)
        requires
            self.shape(),
            self.stored(),
        ensures
            r == (self.coded() && self.unique()),
    {
        broadcast use vstd::std_specs::hash::group_hash_axioms;

        let mut seen: HashSet<u64> = HashSet::new();
        let n: usize = self.block_cid.len();
        let mut b: usize = 0;
        while b < n
            invariant
                b <= n == self.block_cid@.len(),
                self.shape(),
                self.stored(),
                self.coded_upto(b as int, 0),
                self.unique_upto(b as int, 0),
                forall|id: u64| #[trigger] seen@.contains(id) <==> self.met(b as int, 0, id),
            decreases n - b,
        {
            if self.is_live(b as u32) {
                assert(self.is_posting(b as int));
                let len: usize = self.postings.len(b);
                let mut i: usize = 0;
                while i < len
                    invariant
                        b < n == self.block_cid@.len(),
                        self.is_posting(b as int),
                        i <= len == self.posting(b as int).len(),
                        self.shape(),
                        self.stored(),
                        self.coded_upto(b as int, i as int),
                        self.unique_upto(b as int, i as int),
                        forall|id: u64| #[trigger]
                            seen@.contains(id) <==> self.met(b as int, i as int, id),
                    decreases len - i,
                {
                    broadcast use vstd::std_specs::hash::group_hash_axioms;

                    let id: u64 = self.postings.id(b, i);
                    let ghost e = self.posting(b as int)[i as int];
                    if id >= self.next_id {
                        return false;
                    }
                    let code = self.postings.code(b, i);
                    let right = self.encode(self.raw(id), b as u32);
                    if !same_bytes(code, right.as_slice()) {
                        return false;
                    }
                    let ghost was = seen@;
                    if !seen.insert(id) {
                        proof {
                            assert(self.met(b as int, i as int, id));
                            let (c, j) = choose|c: int, j: int|
                                self.is_posting(c) && 0 <= j < self.posting(c).len() && (c < b || (c
                                    == b && j < i)) && (#[trigger] self.posting(c)[j]).id == id;
                            assert(self.posting(c)[j].id == self.posting(b as int)[i as int].id);
                        }
                        return false;
                    }
                    proof {
                        assert forall|x: u64| #[trigger] seen@.contains(x) <==> self.met(
                            b as int,
                            i + 1,
                            x,
                        ) by {
                            if was.contains(x) {
                                assert(self.met(b as int, i as int, x));
                                let (c, j) = choose|c: int, j: int|
                                    self.is_posting(c) && 0 <= j < self.posting(c).len() && (c < b
                                        || (c == b && j < i)) && (
                                    #[trigger] self.posting(c)[j]).id == x;
                                assert(self.posting(c)[j].id == x);
                            }
                            if x == id {
                                assert(self.posting(b as int)[i as int].id == x);
                            }
                            if self.met(b as int, i + 1, x) {
                                let (c, j) = choose|c: int, j: int|
                                    self.is_posting(c) && 0 <= j < self.posting(c).len() && (c < b
                                        || (c == b && j < i + 1)) && (
                                    #[trigger] self.posting(c)[j]).id == x;
                                if !(c == b && j == i) {
                                    assert(self.posting(c)[j].id == x);
                                    assert(self.met(b as int, i as int, x));
                                }
                            }
                        }
                        assert(self.unique_upto(b as int, i + 1)) by {
                            assert forall|c: int, j: int, d: int, k: int|
                                self.is_posting(c) && self.is_posting(d) && 0 <= j < self.posting(
                                    c,
                                ).len() && 0 <= k < self.posting(d).len() && (c < b || (c == b && j
                                    < i + 1)) && (d < b || (d == b && k < i + 1)) && (
                                #[trigger] self.posting(c)[j]).id == (
                                #[trigger] self.posting(d)[k]).id implies c == d && j == k by {
                                if c == b && j == i {
                                    if !(d == b && k == i) {
                                        assert(self.posting(d)[k].id == id);
                                        assert(self.met(b as int, i as int, id));
                                    }
                                } else if d == b && k == i {
                                    assert(self.posting(c)[j].id == id);
                                    assert(self.met(b as int, i as int, id));
                                }
                            }
                        }
                    }
                    i = i + 1;
                }
                proof {
                    self.lemma_block_done(b as int, len as int);
                }
            } else {
                proof {
                    self.lemma_block_done(b as int, 0);
                }
            }
            b = b + 1;
        }
        proof {
            assert(self.coded()) by {
                assert forall|c: int, i: int|
                    self.is_posting(c) && 0 <= i < self.posting(c).len() implies {
                    &&& (#[trigger] self.posting(c)[i]).id < self.next_id
                    &&& self.posting(c)[i].code == self.code_for(
                        self.raw_at(self.posting(c)[i].id as int),
                        self.centroid(c),
                    )
                } by {
                    assert(c < n);
                }
            }
            assert(self.unique());
        }
        true
    }

    proof fn lemma_block_done(&self, b: int, len: int)
        requires
            self.is_posting(b) ==> len == self.posting(b).len(),
        ensures
            self.coded_upto(b, len) ==> self.coded_upto(b + 1, 0),
            self.unique_upto(b, len) ==> self.unique_upto(b + 1, 0),
            forall|id: u64| #[trigger] self.met(b, len, id) == self.met(b + 1, 0, id),
    {
        assert forall|id: u64| #[trigger] self.met(b, len, id) == self.met(b + 1, 0, id) by {
            if self.met(b, len, id) {
                let (c, j) = choose|c: int, j: int|
                    self.is_posting(c) && 0 <= j < self.posting(c).len() && (c < b || (c == b && j
                        < len)) && (#[trigger] self.posting(c)[j]).id == id;
                assert(self.posting(c)[j].id == id);
            }
            if self.met(b + 1, 0, id) {
                let (c, j) = choose|c: int, j: int|
                    self.is_posting(c) && 0 <= j < self.posting(c).len() && (c < b + 1 || (c == b
                        + 1 && j < 0)) && (#[trigger] self.posting(c)[j]).id == id;
                assert(self.posting(c)[j].id == id);
            }
        }
    }

    /// Whether the parts of the index agree.
    pub fn validate(&self) -> (r: bool)
        ensures
            r == self.is_consistent(),
            self.is_grounded() ==> r == self.wf(),
    {
        self.check_shape() && self.check_linked() && self.check_freed() && self.check_stored()
            && self.check_entries()
    }

    /// Whether no posting is too large, and every vector that was not deleted is in one.
    #[verifier::rlimit(40)]
    pub fn is_ready(&self) -> (r: bool)
        requires
            self.wf(),
        ensures
            r == (self.is_small() && self.is_complete()),
    {
        broadcast use vstd::std_specs::hash::group_hash_axioms;

        let mut seen: HashSet<u64> = HashSet::new();
        let n: usize = self.block_cid.len();
        let mut b: usize = 0;
        while b < n
            invariant
                b <= n == self.block_cid@.len(),
                self.wf(),
                forall|c: int|
                    0 <= c < b && #[trigger] self.is_posting(c) ==> self.posting(c).len()
                        < self.cfg.max_posting_size,
                forall|id: u64| #[trigger] seen@.contains(id) <==> self.met(b as int, 0, id),
            decreases n - b,
        {
            if self.is_live(b as u32) {
                assert(self.is_posting(b as int));
                let len: usize = self.postings.len(b);
                if len >= self.cfg.max_posting_size {
                    return false;
                }
                let mut i: usize = 0;
                while i < len
                    invariant
                        b < n == self.block_cid@.len(),
                        self.is_posting(b as int),
                        i <= len == self.posting(b as int).len(),
                        self.wf(),
                        forall|id: u64| #[trigger]
                            seen@.contains(id) <==> self.met(b as int, i as int, id),
                    decreases len - i,
                {
                    broadcast use vstd::std_specs::hash::group_hash_axioms;

                    let id: u64 = self.postings.id(b, i);
                    let ghost was = seen@;
                    seen.insert(id);
                    proof {
                        assert forall|x: u64| #[trigger] seen@.contains(x) <==> self.met(
                            b as int,
                            i + 1,
                            x,
                        ) by {
                            if was.contains(x) {
                                assert(self.met(b as int, i as int, x));
                                let (c, j) = choose|c: int, j: int|
                                    self.is_posting(c) && 0 <= j < self.posting(c).len() && (c < b
                                        || (c == b && j < i)) && (
                                    #[trigger] self.posting(c)[j]).id == x;
                                assert(self.posting(c)[j].id == x);
                            }
                            if x == id {
                                assert(self.posting(b as int)[i as int].id == x);
                            }
                            if self.met(b as int, i + 1, x) {
                                let (c, j) = choose|c: int, j: int|
                                    self.is_posting(c) && 0 <= j < self.posting(c).len() && (c < b
                                        || (c == b && j < i + 1)) && (
                                    #[trigger] self.posting(c)[j]).id == x;
                                if !(c == b && j == i) {
                                    assert(self.posting(c)[j].id == x);
                                    assert(self.met(b as int, i as int, x));
                                }
                            }
                        }
                    }
                    i = i + 1;
                }
                proof {
                    self.lemma_block_done(b as int, len as int);
                }
            } else {
                proof {
                    self.lemma_block_done(b as int, 0);
                }
            }
            b = b + 1;
        }
        assert forall|id: u64| #[trigger] self.is_placed(id) <==> self.met(n as int, 0, id) by {
            if self.is_placed(id) {
                let c = choose|c: int| #[trigger] self.holds_id(c, id);
                let j = choose|j: int|
                    0 <= j < self.posting(c).len() && (#[trigger] self.posting(c)[j]).id == id;
                assert(self.posting(c)[j].id == id);
                assert(self.met(n as int, 0, id));
            }
            if self.met(n as int, 0, id) {
                let (c, j) = choose|c: int, j: int|
                    self.is_posting(c) && 0 <= j < self.posting(c).len() && (c < n || (c == n && j
                        < 0)) && (#[trigger] self.posting(c)[j]).id == id;
                assert(self.holds_id(c, id));
            }
        }
        let mut id: u64 = 0;
        while id < self.next_id
            invariant
                id <= self.next_id,
                forall|x: u64| #[trigger] seen@.contains(x) <==> self.met(n as int, 0, x),
                forall|x: u64| #[trigger] self.is_placed(x) <==> self.met(n as int, 0, x),
                forall|x: u64|
                    x < id && !self.deleted@.contains(x) ==> #[trigger] self.is_placed(x),
            decreases self.next_id - id,
        {
            broadcast use vstd::std_specs::hash::group_hash_axioms;

            if !self.deleted.contains(&id) && !seen.contains(&id) {
                assert(!self.is_placed(id));
                return false;
            }
            assert(!self.deleted@.contains(id) ==> self.is_placed(id)) by {
                assert(self.is_placed(id) <==> self.met(n as int, 0, id));
            }
            id = id + 1;
        }
        true
    }
}

} // verus!
