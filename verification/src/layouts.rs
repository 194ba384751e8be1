//! Where things stand in bytes, and other things that are told by number.
use crate::bytes;
use crate::codec::{ratio_of, VectorQuantizer};
use crate::error::{DiskAnnError, Fault};
use crate::filter::Filter;
use crate::filtered;
use crate::formats;
use crate::image;
use crate::incremental::IncrementalDiskANN;
use crate::index;
use crate::metric::Distance;
use crate::postings;
use crate::pq;
use crate::pq::{PQConfig, ProductQuantizer};
use crate::quantized;
use crate::quantizer::QuantizerState;
use crate::rabitq::RaBitQ;
use crate::simd;
use crate::snapshot;
use crate::snapshot::{Manifest, Snapshot};
use crate::spfresh::SPFresh;
use crate::sq::{F16Quantizer, Int8Quantizer};
use crate::wire;
use vstd::prelude::*;

verus! {

/// A 32-bit number is told by four bytes, the lowest first.
pub proof fn words_are_told_lowest_byte_first(s: Seq<u8>, p: int)
    requires
        0 <= p,
        p + 4 <= s.len(),
    ensures
        bytes::word_at(s, p) == s[p] + 0x100 * s[p + 1] + 0x1_0000 * s[p + 2] + 0x100_0000 * s[p
            + 3],
{
    let t = s.subrange(p, p + 4);
    reveal_with_fuel(bytes::le_value, 5);
    let a = t.drop_first();
    let b = a.drop_first();
    let c = b.drop_first();
    assert(c[0] == s[p + 3]);
    assert(bytes::le_value(c) == s[p + 3] as nat);
    assert(bytes::le_value(b) == s[p + 2] + 256 * s[p + 3]);
    assert(bytes::le_value(a) == s[p + 1] + 256 * (s[p + 2] + 256 * s[p + 3]));
}

/// A block of a posting: the number of its entries in four bytes, and then the entries, each
/// an id in eight bytes and a code.
pub proof fn blocks_are_laid_out(block: Seq<u8>, i: int, code_size: int)
    requires
        0 <= code_size,
        0 <= i < postings::entries_in(block, code_size).len(),
    ensures
        ({
            let entries = postings::entries_in(block, code_size);
            let p = 4 + i * (8 + code_size);
            &&& entries.len() == bytes::word_at(block, 0)
            &&& entries[i].id == bytes::long_at(block, p)
            &&& entries[i].code == block.subrange(p + 8, p + 8 + code_size)
        }),
{
}

/// A file of vectors: before the bytes of each vector stands the number of its components.
pub proof fn vector_files_are_laid_out(first: Seq<u8>, rest: Seq<Seq<u8>>, width: int)
    requires
        width == 1 || width == 4,
        first.len() as int / width <= u32::MAX,
    ensures
        ({
            let s = formats::file_of(seq![first] + rest, width);
            &&& s.len() == 4 + first.len() + formats::file_of(rest, width).len()
            &&& bytes::word_at(s, 0) == first.len() as int / width
            &&& s.subrange(4, 4 + first.len() as int) == first
            &&& s.skip(4 + first.len() as int) == formats::file_of(rest, width)
        }),
{
    let rows = seq![first] + rest;
    assert(rows.skip(1) =~= rest);
    assert(rows[0] == first);
    let count = (first.len() as int / width) as u32;
    bytes::lemma_le32(count);
    let s = formats::file_of(rows, width);
    assert(s.subrange(0, 4) =~= bytes::le32(count));
    assert(s.subrange(4, 4 + first.len() as int) =~= first);
    assert(s.skip(4 + first.len() as int) =~= formats::file_of(rest, width));
}

/// Bytes of vectors are read as numbers from zero to one: each over 255.
pub proof fn bytes_are_read_as_shares<D: Distance>(dist: D, row: Seq<u8>, i: int)
    requires
        0 <= i < row.len(),
    ensures
        formats::scaled(dist, row).len() == row.len(),
        formats::scaled(dist, row)[i] == dist.quotient_spec(
            dist.count_spec(row[i] as usize),
            0x437f_0000,
        ),
{
}

/// Quantized data: the word 0x51414e4e, the version 1, a byte for the kind of quantizer, the
/// number of vectors, the bytes of a code, the length of the quantizer, the quantizer, and
/// the codes.
pub proof fn quantized_data_is_laid_out(
    q: &QuantizerState,
    num_vectors: usize,
    code_size: usize,
    codes: Seq<u8>,
)
    requires
        q.record().len() <= u64::MAX,
    ensures
        ({
            let b = quantized::sidecar_bytes(q, num_vectors, code_size, codes);
            let n = q.record().len() as int;
            &&& bytes::word_at(b, 0) == 0x5141_4e4e
            &&& bytes::word_at(b, 4) == 1
            &&& b[8] == match q {
                QuantizerState::PQ(_) => 0u8,
                QuantizerState::F16(_) => 1,
                QuantizerState::Int8(_) => 2,
                QuantizerState::RaBitQ(_) => 3,
            }
            &&& bytes::long_at(b, 9) == num_vectors
            &&& bytes::long_at(b, 17) == code_size
            &&& bytes::long_at(b, 25) == n
            &&& b.subrange(33, 33 + n) == q.record()
            &&& b.skip(33 + n) == codes
        }),
{
    let b = quantized::sidecar_bytes(q, num_vectors, code_size, codes);
    let n = q.record().len() as int;
    bytes::lemma_pow256();
    bytes::lemma_le32(quantized::MAGIC);
    bytes::lemma_le32(quantized::VERSION);
    bytes::lemma_le64(num_vectors as u64);
    bytes::lemma_le64(code_size as u64);
    bytes::lemma_le_round_trip(n as nat, 8);
    assert(b.subrange(0, 4) =~= bytes::le32(quantized::MAGIC));
    assert(b.subrange(4, 8) =~= bytes::le32(quantized::VERSION));
    assert(b.subrange(9, 17) =~= bytes::le64(num_vectors as u64));
    assert(b.subrange(17, 25) =~= bytes::le64(code_size as u64));
    assert(b.subrange(25, 33) =~= bytes::le_bytes(n as nat, 8));
    assert(b.subrange(33, 33 + n) =~= q.record());
    assert(b.skip(33 + n) =~= codes);
}

/// Labels in bytes: the length of their head, which is 16, the number of rows, the number of
/// fields, and then the rows.
pub proof fn labels_are_laid_out(labels: Seq<Vec<u64>>, num_fields: usize)
    requires
        labels.len() <= usize::MAX,
    ensures
        ({
            let b = filtered::labels_record(labels, num_fields);
            &&& bytes::long_at(b, 0) == 16
            &&& bytes::long_at(b, 8) == labels.len()
            &&& bytes::long_at(b, 16) == num_fields
            &&& b.skip(24) == filtered::label_bytes(labels, labels.len() as int)
        }),
{
    let b = filtered::labels_record(labels, num_fields);
    let head = wire::label_head_bytes(labels.len() as usize, num_fields);
    bytes::lemma_pow256();
    bytes::lemma_le64(labels.len() as u64);
    bytes::lemma_le64(num_fields as u64);
    assert(head.len() == 16);
    bytes::lemma_le_round_trip(16, 8);
    assert(b.subrange(0, 8) =~= bytes::le_bytes(16, 8));
    assert(b.subrange(8, 16) =~= bytes::le64(labels.len() as u64));
    assert(b.subrange(16, 24) =~= bytes::le64(num_fields as u64));
    assert(b.skip(24) =~= filtered::label_bytes(labels, labels.len() as int));
}

/// An image begins with the word 0x494e4352, the version 1, and a byte that is 1 if there
/// is a base; behind that stand the length of the base and the base.
pub proof fn images_are_laid_out<'a, D: Distance>(ix: &IncrementalDiskANN<'a, D>, order: Seq<u64>)
    requires
        ix.base matches Some(b) ==> b.storage@.len() <= u64::MAX,
    ensures
        ({
            let s = ix.image(order);
            &&& bytes::word_at(s, 0) == 0x494e_4352
            &&& bytes::word_at(s, 4) == 1
            &&& match ix.base {
                Some(b) => {
                    &&& s[8] == 1
                    &&& bytes::long_at(s, 9) == b.storage@.len()
                    &&& s.subrange(17, 17 + b.storage@.len() as int) == b.storage@
                    &&& bytes::long_at(s, 17 + b.storage@.len() as int) == ix.dim
                },
                None => s[8] == 0 && bytes::long_at(s, 9) == ix.dim,
            }
        }),
{
    let s = ix.image(order);
    bytes::lemma_pow256();
    bytes::lemma_le32(image::INCR_MAGIC);
    bytes::lemma_le32(image::INCR_FORMAT_VERSION);
    bytes::lemma_le64(ix.dim as u64);
    bytes::lemma_le_bytes_len(ix.delta.vectors@.len(), 8);
    bytes::lemma_le_bytes_len(ix.delta.graph@.len(), 8);
    assert(s.subrange(0, 4) =~= bytes::le32(image::INCR_MAGIC));
    assert(s.subrange(4, 8) =~= bytes::le32(image::INCR_FORMAT_VERSION));
    match ix.base {
        Some(b) => {
            let n = b.storage@.len();
            bytes::lemma_le_round_trip(n, 8);
            assert(s.subrange(9, 17) =~= bytes::le_bytes(n, 8));
            assert(s.subrange(17, 17 + n as int) =~= b.storage@);
            assert(s.subrange(17 + n as int, 25 + n as int) =~= bytes::le64(ix.dim as u64));
        },
        None => {
            assert(s.subrange(9, 17) =~= bytes::le64(ix.dim as u64));
        },
    }
}

/// An image is made of its parts in turn: the base, the added vectors, what was deleted, the
/// labels, the codes.
pub proof fn image_parts_follow_in_turn<'a, D: Distance>(
    ix: &IncrementalDiskANN<'a, D>,
    order: Seq<u64>,
)
    ensures
        ix.image(order).skip(8) == ix.base_part() + ix.delta_part() + ix.deleted_part(order)
            + ix.label_part() + ix.coding_part(),
{
    bytes::lemma_le32(image::INCR_MAGIC);
    bytes::lemma_le32(image::INCR_FORMAT_VERSION);
    assert(ix.image(order).skip(8) =~= ix.base_part() + ix.delta_part() + ix.deleted_part(order)
        + ix.label_part() + ix.coding_part());
}

/// The part of an image on what was deleted: the entry point, the degree, how many ids were
/// deleted, and the ids.
pub proof fn deletions_are_laid_out<'a, D: Distance>(
    ix: &IncrementalDiskANN<'a, D>,
    order: Seq<u64>,
)
    requires
        order.len() <= u64::MAX,
    ensures
        ({
            let s = ix.deleted_part(order);
            &&& bytes::long_at(s, 0) == match ix.delta.entry_point {
                Some(e) => e as u64,
                None => 0xffff_ffff_ffff_ffff,
            }
            &&& bytes::long_at(s, 8) == ix.delta.max_degree
            &&& bytes::long_at(s, 16) == order.len()
            &&& s.skip(24) == bytes::long_bytes(order)
        }),
{
    let s = ix.deleted_part(order);
    let entry = image::entry_word(ix.delta.entry_point);
    bytes::lemma_pow256();
    bytes::lemma_le64(entry);
    bytes::lemma_le64(ix.delta.max_degree as u64);
    bytes::lemma_le_round_trip(order.len(), 8);
    assert(s.subrange(0, 8) =~= bytes::le64(entry));
    assert(s.subrange(8, 16) =~= bytes::le64(ix.delta.max_degree as u64));
    assert(s.subrange(16, 24) =~= bytes::le_bytes(order.len(), 8));
    assert(s.skip(24) =~= bytes::long_bytes(order));
}

/// The part of an image with the added vectors: their length, their number, their components
/// one vector after the other, and then the number of rows and the rows.
pub proof fn added_vectors_are_laid_out<'a, D: Distance>(ix: &IncrementalDiskANN<'a, D>)
    requires
        ix.delta.vectors@.len() <= u64::MAX,
        ix.delta.graph@.len() <= u64::MAX,
    ensures
        ({
            let s = ix.delta_part();
            let n = ix.delta.vectors@.len() as int;
            let rows = image::row_bytes(ix.delta.vectors@, n);
            let at = 16 + rows.len() as int;
            &&& bytes::long_at(s, 0) == ix.dim
            &&& bytes::long_at(s, 8) == n
            &&& s.subrange(16, at) == rows
            &&& bytes::long_at(s, at) == ix.delta.graph@.len()
            &&& s.skip(at + 8) == image::graph_bytes(
                ix.delta.graph@,
                ix.delta.graph@.len() as int,
            )
        }),
{
    let s = ix.delta_part();
    let n = ix.delta.vectors@.len();
    let m = ix.delta.graph@.len();
    let rows = image::row_bytes(ix.delta.vectors@, n as int);
    let at = 16 + rows.len() as int;
    bytes::lemma_pow256();
    bytes::lemma_le64(ix.dim as u64);
    bytes::lemma_le_round_trip(n, 8);
    bytes::lemma_le_round_trip(m, 8);
    assert(s.subrange(0, 8) =~= bytes::le64(ix.dim as u64));
    assert(s.subrange(8, 16) =~= bytes::le_bytes(n, 8));
    assert(s.subrange(16, at) =~= rows);
    assert(s.subrange(at, at + 8) =~= bytes::le_bytes(m, 8));
    assert(s.skip(at + 8) =~= image::graph_bytes(ix.delta.graph@, m as int));
}

/// The part of an image with the codes: a byte that is 1 if there are any, the bytes of a
/// code, how many are compared again, the length of the quantizer, the quantizer, the length
/// of the codes, and the codes.
pub proof fn codes_in_images_are_laid_out<'a, D: Distance>(ix: &IncrementalDiskANN<'a, D>)
    requires
        ix.quantizer matches Some(q) ==> q.record().len() <= u64::MAX,
        ix.base_codes matches Some(c) ==> c@.len() <= u64::MAX,
    ensures
        ({
            let s = ix.coding_part();
            match ix.quantizer {
                None => s == seq![0u8],
                Some(q) => {
                    let n = q.record().len() as int;
                    let codes = match ix.base_codes {
                        Some(c) => c@,
                        None => Seq::empty(),
                    };
                    &&& s[0] == 1
                    &&& bytes::long_at(s, 1) == ix.code_size
                    &&& bytes::long_at(s, 9) == ix.rerank_size
                    &&& bytes::long_at(s, 17) == n
                    &&& s.subrange(25, 25 + n) == q.record()
                    &&& bytes::long_at(s, 25 + n) == codes.len()
                    &&& s.skip(33 + n) == codes
                },
            }
        }),
{
    let s = ix.coding_part();
    if ix.quantizer is Some {
        let q = ix.quantizer->0;
        let n = q.record().len() as int;
        let codes = match ix.base_codes {
            Some(c) => c@,
            None => Seq::empty(),
        };
        bytes::lemma_pow256();
        bytes::lemma_le64(ix.code_size as u64);
        bytes::lemma_le64(ix.rerank_size as u64);
        bytes::lemma_le_round_trip(n as nat, 8);
        bytes::lemma_le_round_trip(codes.len(), 8);
        assert(s.subrange(1, 9) =~= bytes::le64(ix.code_size as u64));
        assert(s.subrange(9, 17) =~= bytes::le64(ix.rerank_size as u64));
        assert(s.subrange(17, 25) =~= bytes::le_bytes(n as nat, 8));
        assert(s.subrange(25, 25 + n) =~= q.record());
        assert(s.subrange(25 + n, 33 + n) =~= bytes::le_bytes(codes.len(), 8));
        assert(s.skip(33 + n) =~= codes);
    }
}

/// A manifest: its version in eight bytes, the description, and then how many blocks there
/// are, in eight bytes, and their versions.
pub proof fn manifests_are_laid_out(m: &Manifest)
    requires
        m.block_ver@.len() <= u64::MAX,
    ensures
        ({
            let s = m.bytes();
            let at = 8 + m.meta@.len() as int;
            let n = m.block_ver@.len() as int;
            &&& bytes::long_at(s, 0) == m.version
            &&& s.subrange(8, at) == m.meta@
            &&& bytes::long_at(s, at) == n
            &&& s.subrange(at + 8, at + 8 + 8 * n) == bytes::long_bytes(m.block_ver@)
            &&& s.skip(at + 8 + 8 * n) == wire::long_list_bytes(m.raw_chunk_ver@)
        }),
{
    let s = m.bytes();
    let at = 8 + m.meta@.len() as int;
    let n = m.block_ver@.len() as int;
    bytes::lemma_pow256();
    bytes::lemma_le64(m.version);
    bytes::lemma_le_round_trip(n as nat, 8);
    bytes::lemma_long_bytes_len(m.block_ver@);
    assert(s.subrange(0, 8) =~= bytes::le64(m.version));
    assert(s.subrange(8, at) =~= m.meta@);
    assert(s.subrange(at, at + 8) =~= bytes::le_bytes(n as nat, 8));
    assert(s.subrange(at + 8, at + 8 + 8 * n) =~= bytes::long_bytes(m.block_ver@));
    assert(s.skip(at + 8 + 8 * n) =~= wire::long_list_bytes(m.raw_chunk_ver@));
}

/// Every entry point is read back as it was written, and so is that there is none; a number
/// with its highest bit set stands for none.
pub proof fn entry_points_read_back(e: Option<u32>, v: u64)
    ensures
        image::entry_of(image::entry_word(e)) == e,
        image::entry_of(v) is None <==> v >= 0x8000_0000_0000_0000,
        v <= u32::MAX ==> image::entry_of(v) == Some(v as u32),
{
}

/// A snapshot stores vectors in chunks of 4096: there are as many as are needed, and chunk
/// `c` holds the vectors from `4096 * c` on.
pub proof fn chunks_hold_4096_vectors<'a, D: Distance>(ix: &SPFresh<'a, D>, n: int, c: int)
    requires
        0 <= n,
        0 <= c,
    ensures
        4096 * snapshot::chunk_count(n) >= n,
        4096 * (snapshot::chunk_count(n) - 1) < n || n == 0,
        n == 0 ==> snapshot::chunk_count(n) == 0,
        ix.chunk(c) == ix.raw@.subrange(
            4096 * c * ix.dim,
            if ix.next_id <= 4096 * c + 4096 {
                ix.next_id * ix.dim
            } else {
                (4096 * c + 4096) * ix.dim
            },
        ),
        ix.first_chunk(true) == 0,
        4096 * ix.first_chunk(false) <= ix.synced_id < 4096 * ix.first_chunk(false) + 4096,
{
    assert(c * 4096 * ix.dim == 4096 * c * ix.dim) by (nonlinear_arith);
    assert((c + 1) * 4096 * ix.dim == (4096 * c + 4096) * ix.dim) by (nonlinear_arith);
}

/// A snapshot on top of another has the next version, the first has version 1. It stores
/// every block written since, or all for the first, in its version; the other blocks keep
/// theirs, those that are new and were never stored having version 0.
pub proof fn snapshots_store_what_changed<'a, D: Distance>(
    ix: &SPFresh<'a, D>,
    base: Option<&Manifest>,
    s: Snapshot,
    b: u32,
)
    requires
        ix.is_snapshot(base, s),
        b < ix.block_cid@.len(),
    ensures
        s.manifest.version == match base {
            Some(m) => m.version + 1,
            None => 1,
        },
        s.manifest.block_ver@.len() == ix.block_cid@.len(),
        s.manifest.block_ver@[b as int] == if base is None || ix.dirty@.contains_key(b) {
            s.manifest.version
        } else if b < base->0.block_ver@.len() {
            base->0.block_ver@[b as int]
        } else {
            0
        },
{
    if base is None || ix.dirty@.contains_key(b) {
        assert(snapshot::stores_block(s.blocks@, b as int));
    } else if snapshot::stores_block(s.blocks@, b as int) {
        let i = choose|i: int| 0 <= i < s.blocks@.len() && (#[trigger] s.blocks@[i]).0 == b;
        assert(ix.dirty@.contains_key(s.blocks@[i].0));
    }
}

/// A snapshot stores every chunk that holds a vector which the last one did not, or all for
/// the first, in its version; the chunks before keep theirs.
pub proof fn snapshots_store_new_chunks<'a, D: Distance>(
    ix: &SPFresh<'a, D>,
    base: Option<&Manifest>,
    s: Snapshot,
    c: int,
)
    requires
        ix.is_snapshot(base, s),
        0 <= c,
        4096 * c < ix.next_id,
        ix.next_id <= usize::MAX,
    ensures
        ({
            let old = base is Some && 4096 * c + 4096 <= ix.synced_id;
            &&& c < s.manifest.raw_chunk_ver@.len()
            &&& old ==> s.manifest.raw_chunk_ver@[c] == if c < base->0.raw_chunk_ver@.len() {
                base->0.raw_chunk_ver@[c]
            } else {
                0
            }
            &&& !old ==> s.manifest.raw_chunk_ver@[c] == s.manifest.version
            &&& !old ==> s.chunks@.contains(c as usize)
            &&& s.next_id == ix.next_id
        }),
{
    let first = ix.first_chunk(base is None);
    let last = snapshot::chunk_count(ix.next_id as int);
    if c >= first {
        assert(snapshot::chunks_from(first, last)[c - first] == c as usize);
    }
}

/// A restored file of blocks has room for every block, and for one where there are none.
pub proof fn block_files_have_room(n: int, size: int)
    requires
        0 <= n,
        0 <= size,
    ensures
        n > 0 ==> snapshot::blocks_len(n, size) == n * size,
        snapshot::blocks_len(0, size) == size,
{
}

/// What is written into a file stands at its place; the rest of the file is as it was, and
/// zero where it had ended before.
pub proof fn written_parts_stand_in_place(s: Seq<u8>, p: int, part: Seq<u8>, i: int)
    requires
        0 <= p,
    ensures
        ({
            let t = snapshot::overlaid(s, p, part);
            &&& t.subrange(p, p + part.len()) == part
            &&& 0 <= i < s.len() && (i < p || p + part.len() <= i) ==> t[i] == s[i]
            &&& s.len() <= i < p ==> t[i] == 0
            &&& s.len() <= p + part.len() ==> t.len() == p + part.len()
            &&& s.len() >= p + part.len() ==> t.len() == s.len()
        }),
{
    let t = snapshot::overlaid(s, p, part);
    assert(t.subrange(p, p + part.len()) =~= part);
}

/// Training is refused: without vectors, for more than 256 centroids, and where the length
/// of the vectors is no multiple of the number of pieces, in this order.
pub proof fn training_is_refused(vectors: Seq<Vec<u32>>, config: PQConfig)
    ensures
        pq::training_fault(vectors, config) == if vectors.len() == 0 {
            Some(Fault::NothingToTrainOn)
        } else if config.num_centroids > 256 {
            Some(Fault::TooManyCentroids { num_centroids: config.num_centroids })
        } else if vectors[0]@.len() % (config.num_subspaces as nat) != 0 {
            Some(
                Fault::NotDivisible {
                    dim: vectors[0]@.len() as usize,
                    num_subspaces: config.num_subspaces,
                },
            )
        } else {
            None
        },
{
}

/// Labels fit vectors if there are as many rows as vectors and all rows have as many fields
/// as the first; else the counts, or the first row that differs, are named.
pub proof fn unfit_labels_are_named(labels: Seq<Vec<u64>>, vectors: int)
    requires
        labels.len() <= usize::MAX,
        0 <= vectors <= usize::MAX,
    ensures
        ({
            let fault = filtered::label_fault(labels, vectors);
            &&& labels.len() != vectors <==> fault == Some(
                Fault::LabelCount { labels: labels.len() as usize, vectors: vectors as usize },
            )
            &&& fault is None <==> labels.len() == vectors && forall|i: int|
                0 <= i < labels.len() ==> (#[trigger] labels[i])@.len() == labels[0]@.len()
            &&& fault matches Some(Fault::LabelFields { index: at, found, expected }) ==> 0 < at
                < labels.len() && expected == labels[0]@.len() && found
                == labels[at as int]@.len() && found != expected && forall|i: int|
                0 <= i < at ==> (#[trigger] labels[i])@.len() == expected
        }),
{
    if labels.len() > 0 {
        let first = labels[0];
        assert(first@.len() == first.len());
    }
    lemma_odd_row(labels, filtered::field_count(labels), 0);
    match filtered::first_odd_row(labels, filtered::field_count(labels), 0) {
        Some(i) => {
            let row = labels[i];
            assert(row@.len() == row.len());
        },
        None => {},
    }
}

proof fn lemma_odd_row(labels: Seq<Vec<u64>>, fields: int, from: int)
    requires
        0 <= from,
    ensures
        match filtered::first_odd_row(labels, fields, from) {
            Some(at) => from <= at < labels.len() && labels[at]@.len() != fields && forall|i: int|
                from <= i < at ==> (#[trigger] labels[i])@.len() == fields,
            None => forall|i: int|
                from <= i < labels.len() ==> (#[trigger] labels[i])@.len() == fields,
        },
    decreases labels.len() - from,
{
    if from < labels.len() && labels[from]@.len() == fields {
        lemma_odd_row(labels, fields, from + 1);
    }
}

/// The count of accepted rows is that of the rows that a filter accepts.
pub proof fn accepted_rows_are_counted(labels: Seq<Vec<u64>>, filter: &Filter, upto: int)
    requires
        0 <= upto <= labels.len(),
    ensures
        filtered::accepted(labels, filter, upto) == labels.take(upto).filter(
            |row: Vec<u64>| filter.accepts(row@),
        ).len(),
    decreases upto,
{
    let keeps = |row: Vec<u64>| filter.accepts(row@);
    reveal(Seq::filter);
    if upto > 0 {
        accepted_rows_are_counted(labels, filter, upto - 1);
        assert(labels.take(upto).drop_last() =~= labels.take(upto - 1));
        assert(labels.take(upto).last() == labels[upto - 1]);
    } else {
        assert(labels.take(0).filter(keeps) =~= Seq::empty());
    }
}

/// How many times smaller codes are than vectors: four bytes to a component over the bytes
/// of a code, which are one to a piece, two to a component, one to a component, and, for
/// codes of bits, a bit to a padded component and eight bytes.
pub proof fn compression_is_measured<D: Distance>(
    dist: D,
    dim: usize,
    a: &ProductQuantizer,
    b: &F16Quantizer,
    c: &Int8Quantizer,
    d: &RaBitQ,
)
    ensures
        a.sizes(dim) == (4 * a.dim, a.num_subspaces as int),
        b.sizes(dim) == (4 * dim, 2 * dim),
        c.sizes(dim) == (4 * dim, dim as int),
        d.sizes(dim) == (4 * dim, d.padded as int / 8 + 8),
        forall|x: int, y: int| #[trigger]
            ratio_of(dist, x, y) == dist.quotient_spec(
                dist.count_spec(x as usize),
                dist.count_spec(y as usize),
            ),
{
}

/// Texts with commas between them.
pub open spec fn listed(names: Seq<Seq<char>>) -> Seq<char>
    decreases names.len(),
{
    if names.len() == 0 {
        Seq::empty()
    } else if names.len() == 1 {
        names[0]
    } else {
        listed(names.drop_last()) + ", "@ + names.last()
    }
}

/// The capabilities that have names, in turn, each with its bit.
pub open spec fn capabilities() -> Seq<(u64, Seq<char>)> {
    seq![
        (0x4u64, "AVX2"@),
        (0x8u64, "AVX-512"@),
        (0x80u64, "AVX-512 VNNI"@),
        (0x100u64, "AVX-512 BF16"@),
        (0x2_0000u64, "AVX-512 FP16"@),
        (0x4_0000u64, "AMX"@),
        (0x2u64, "NEON"@),
        (0x10u64, "NEON FP16"@),
        (0x20u64, "NEON SDOT"@),
        (0x200u64, "NEON BFDOT"@),
        (0x400u64, "SVE"@),
        (0x8000u64, "SVE2"@),
        (0x100_0000u64, "SME"@),
        (0x8_0000u64, "RVV"@),
    ]
}

/// The names of those of the first `upto` capabilities whose bits are set.
pub open spec fn names_of(caps: u64, upto: nat) -> Seq<Seq<char>>
    decreases upto,
{
    if upto == 0 {
        Seq::empty()
    } else {
        let (bit, name) = capabilities()[upto - 1];
        let before = names_of(caps, (upto - 1) as nat);
        if caps & bit != 0 {
            before.push(name)
        } else {
            before
        }
    }
}

/// The capabilities of a machine are told by name, in turn, with commas between them.
pub proof fn capabilities_are_told_by_name(caps: u64)
    ensures
        simd::names_in(caps, 14) == listed(names_of(caps, 14)),
{
    lemma_names(caps, 14);
}

proof fn lemma_names(caps: u64, upto: nat)
    requires
        upto <= 14,
    ensures
        simd::names_in(caps, upto as int) == listed(names_of(caps, upto)),
        names_of(caps, upto).len() > 0 <==> simd::names_in(caps, upto as int).len() > 0,
    decreases upto,
{
    if upto > 0 {
        lemma_names(caps, (upto - 1) as nat);
        simd::lemma_named(upto - 1);
        let (bit, name) = capabilities()[upto - 1];
        assert(simd::capability_order()[upto - 1] == bit);
        assert(simd::capability_name(upto - 1) == name);
        let before = names_of(caps, (upto - 1) as nat);
        if caps & bit != 0 {
            assert(before.push(name).drop_last() =~= before);
        }
    }
}

proof fn lemma_rows_before(
    before: Seq<u8>,
    rows: Seq<Seq<u8>>,
    tail: Seq<u8>,
    width: int,
    rest: Option<Seq<Seq<u8>>>,
)
    requires
        width == 1 || width == 4,
        forall|i: int|
            0 <= i < rows.len() ==> (#[trigger] rows[i]).len() as int % width == 0
                && rows[i].len() as int / width <= u32::MAX,
        forall|p: Seq<u8>| #[trigger]
            formats::rows_from(p + tail, p.len() as int, width) == rest,
    ensures
        formats::rows_from(
            before + (formats::file_of(rows, width) + tail),
            before.len() as int,
            width,
        ) == match rest {
            Some(more) => Some(rows + more),
            None => None,
        },
    decreases rows.len(),
{
    let s = before + (formats::file_of(rows, width) + tail);
    let p = before.len() as int;
    if rows.len() == 0 {
        assert(s =~= before + tail);
        assert(formats::rows_from(before + tail, p, width) == rest);
        if rest is Some {
            assert(rows + rest->0 =~= rest->0);
        }
    } else {
        let first = rows[0];
        let count = (first.len() as int / width) as u32;
        let head = before + (bytes::le32(count) + first);
        bytes::lemma_le32(count);
        assert forall|i: int| 0 <= i < rows.skip(1).len() implies (#[trigger] rows.skip(1)[i]).len()
            as int % width == 0 && rows.skip(1)[i].len() as int / width <= u32::MAX by {
            assert(rows.skip(1)[i] == rows[i + 1]);
        }
        lemma_rows_before(head, rows.skip(1), tail, width, rest);
        assert(s =~= head + (formats::file_of(rows.skip(1), width) + tail));
        assert(s.subrange(p, p + 4) =~= bytes::le32(count));
        assert(count * width == first.len()) by {
            if width == 4 {
                assert(first.len() as int / 4 * 4 == first.len());
            }
        }
        assert(s.subrange(p + 4, p + 4 + first.len() as int) =~= first);
        assert(head.len() == p + 4 + first.len());
        if rest is Some {
            assert(seq![first] + (rows.skip(1) + rest->0) =~= rows + rest->0);
        }
    }
}

/// A file of vectors that ends with fewer than four bytes more is read without these.
pub proof fn trailing_bytes_are_no_vector(rows: Seq<Seq<u8>>, tail: Seq<u8>, width: int)
    requires
        width == 1 || width == 4,
        forall|i: int|
            0 <= i < rows.len() ==> (#[trigger] rows[i]).len() as int % width == 0
                && rows[i].len() as int / width <= u32::MAX,
        tail.len() < 4,
    ensures
        formats::rows_from(formats::file_of(rows, width) + tail, 0, width) == Some(rows),
{
    let none = Some(Seq::<Seq<u8>>::empty());
    assert forall|p: Seq<u8>| #[trigger]
        formats::rows_from(p + tail, p.len() as int, width) == none by {}
    lemma_rows_before(Seq::empty(), rows, tail, width, none);
    assert(Seq::<u8>::empty() + (formats::file_of(rows, width) + tail) =~= formats::file_of(
        rows,
        width,
    ) + tail);
    assert(rows + Seq::<Seq<u8>>::empty() =~= rows);
}

/// A file of vectors whose last vector is cut short is refused.
pub proof fn cut_vectors_are_refused(
    rows: Seq<Seq<u8>>,
    count: u32,
    part: Seq<u8>,
    width: int,
)
    requires
        width == 1 || width == 4,
        forall|i: int|
            0 <= i < rows.len() ==> (#[trigger] rows[i]).len() as int % width == 0
                && rows[i].len() as int / width <= u32::MAX,
        part.len() < count * width,
    ensures
        formats::rows_from(
            formats::file_of(rows, width) + (bytes::le32(count) + part),
            0,
            width,
        ) is None,
{
    let tail = bytes::le32(count) + part;
    bytes::lemma_le32(count);
    assert forall|p: Seq<u8>| #[trigger]
        formats::rows_from(p + tail, p.len() as int, width) == None::<Seq<Seq<u8>>> by {
        let s = p + tail;
        assert(s.subrange(p.len() as int, p.len() as int + 4) =~= bytes::le32(count));
    }
    lemma_rows_before(Seq::empty(), rows, tail, width, None);
    assert(Seq::<u8>::empty() + (formats::file_of(rows, width) + tail) =~= formats::file_of(
        rows,
        width,
    ) + tail);
}

/// Where the header record stands in the bytes of an index: behind its length in eight
/// bytes, which follow the word 0x44414e4e and the version 1, or, without that word, stand
/// at the very beginning. Another version is not read.
pub proof fn headers_stand_in_front(b: Seq<u8>)
    requires
        b.len() >= 16,
    ensures
        ({
            let tagged = bytes::word_at(b, 0) == 0x4441_4e4e;
            let span = index::metadata_span(b);
            let first = bytes::le_value(b.subrange(0, 8)) as int;
            let second = bytes::le_value(b.subrange(8, 16)) as int;
            &&& tagged && bytes::word_at(b, 4) != 1 ==> span == Err::<(int, int), Fault>(
                Fault::UnsupportedVersion { version: bytes::word_at(b, 4) },
            )
            &&& tagged && bytes::word_at(b, 4) == 1 ==> span == if 16 + second <= b.len() {
                Ok::<(int, int), Fault>((16, 16 + second))
            } else {
                Err(Fault::NoMetadata)
            }
            &&& !tagged ==> span == if 8 + first <= b.len() {
                Ok::<(int, int), Fault>((8, 8 + first))
            } else {
                Err(Fault::NoMetadata)
            }
        }),
{
}

/// In an index file the header record stands as in memory; one that is longer than 0x100000
/// bytes or than the rest of the file is refused, with its length and that of the file.
pub proof fn file_headers_are_bounded(b: Seq<u8>)
    requires
        16 <= b.len() <= u64::MAX,
    ensures
        ({
            let tagged = bytes::word_at(b, 0) == 0x4441_4e4e;
            let at = if tagged {
                16int
            } else {
                8
            };
            let length = bytes::long_at(b, at - 8);
            index::file_span(b) == if tagged && bytes::word_at(b, 4) != 1 {
                Err::<(int, int), DiskAnnError>(
                    DiskAnnError::IndexError(
                        Fault::UnsupportedVersion { version: bytes::word_at(b, 4) },
                    ),
                )
            } else if length <= 0x10_0000 && at + length <= b.len() {
                Ok((at, at + length))
            } else {
                Err(
                    DiskAnnError::IndexError(
                        Fault::InvalidMetadataLength { length, file_size: b.len() as u64 },
                    ),
                )
            }
        }),
{
    bytes::lemma_pow256();
    bytes::lemma_le_value_bytes(b.subrange(0, 8));
    bytes::lemma_le_value_bytes(b.subrange(8, 16));
}

} // verus!
