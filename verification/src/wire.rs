//! Records in the bincode format.
use crate::bytes;
use crate::metric;
use vstd::prelude::*;

verus! {

/// Why bincode refused to write or read a record.
#[verifier::external_type_specification]
#[verifier::external_body]
pub struct ExErrorKind(bincode::ErrorKind);

/// Whether bytes start with others.
pub open spec fn begins_with(s: Seq<u8>, part: Seq<u8>) -> bool {
    part.len() <= s.len() && s.take(part.len() as int) == part
}

/// A text as bincode writes it: the number of its UTF-8 bytes, and the bytes.
pub open spec fn text_bytes(text: Seq<char>) -> Seq<u8> {
    let utf8 = vstd::utf8::encode_utf8(text);
    bytes::le_bytes(utf8.len(), 8) + utf8
}

/// The header record of an index.
pub open spec fn metadata_bytes(
    dim: usize,
    num_vectors: usize,
    max_degree: usize,
    medoid_id: u32,
    vectors_offset: u64,
    adjacency_offset: u64,
    distance_name: Seq<char>,
) -> Seq<u8> {
    bytes::le64(dim as u64) + bytes::le64(num_vectors as u64) + bytes::le64(max_degree as u64)
        + bytes::le32(medoid_id) + bytes::le64(vectors_offset) + bytes::le64(adjacency_offset)
        + text_bytes(distance_name)
}

/// Calls `bincode::serialize` on the fields of an index header. It writes them one
/// after the other: integers little-endian, sizes as 64 bits, the name by its length
/// and its UTF-8 bytes. Writing to memory does not fail.
#[verifier::external_body]
pub(crate) fn serialize_metadata(
    dim: usize,
    num_vectors: usize,
    max_degree: usize,
    medoid_id: u32,
    vectors_offset: u64,
    adjacency_offset: u64,
    distance_name: &str,
) -> (r: Result<Vec<u8>, Box<bincode::ErrorKind>>)
    ensures
        r is Ok,
        r->Ok_0@ == metadata_bytes(
            dim,
            num_vectors,
            max_degree,
            medoid_id,
            vectors_offset,
            adjacency_offset,
            distance_name@,
        ),
{
    bincode::serialize(
        &(
            dim,
            num_vectors,
            max_degree,
            medoid_id,
            vectors_offset,
            adjacency_offset,
            distance_name,
        ),
    )
}

/// Calls `bincode::deserialize` for the fields of an index header. It succeeds when the
/// bytes start with a header as `serialize_metadata` writes it, whatever follows, and
/// returns that header's fields.
#[verifier::external_body]
pub(crate) fn deserialize_metadata(s: &[u8]) -> (r: Result<
    (usize, usize, usize, u32, u64, u64, String),
    Box<bincode::ErrorKind>,
>)
    ensures
        r is Ok ==> begins_with(
            s@,
            metadata_bytes(
                r->Ok_0.0,
                r->Ok_0.1,
                r->Ok_0.2,
                r->Ok_0.3,
                r->Ok_0.4,
                r->Ok_0.5,
                r->Ok_0.6@,
            ),
        ),
        r is Err ==> forall|
            dim: usize,
            num_vectors: usize,
            max_degree: usize,
            medoid_id: u32,
            vectors_offset: u64,
            adjacency_offset: u64,
            distance_name: Seq<char>,
        |
            !begins_with(
                s@,
                #[trigger] metadata_bytes(
                    dim,
                    num_vectors,
                    max_degree,
                    medoid_id,
                    vectors_offset,
                    adjacency_offset,
                    distance_name,
                ),
            ),
{
    bincode::deserialize(s)
}

/// Two records of which bytes start with both are equal in each part, when the parts
/// have one length.
pub proof fn lemma_same_start(s: Seq<u8>, a: Seq<u8>, x: Seq<u8>, b: Seq<u8>, y: Seq<u8>)
    requires
        a.len() == b.len(),
        begins_with(s, a + x),
        begins_with(s, b + y),
    ensures
        a == b,
        begins_with(s.skip(a.len() as int), x),
        begins_with(s.skip(a.len() as int), y),
{
    assert(a =~= s.take(a.len() as int)) by {
        assert((a + x).take(a.len() as int) =~= a);
        assert(s.take((a + x).len() as int).take(a.len() as int) =~= s.take(a.len() as int));
    }
    assert(b =~= s.take(b.len() as int)) by {
        assert((b + y).take(b.len() as int) =~= b);
        assert(s.take((b + y).len() as int).take(b.len() as int) =~= s.take(b.len() as int));
    }
    let rest = s.skip(a.len() as int);
    assert(rest.take(x.len() as int) =~= x) by {
        assert(s.take((a + x).len() as int).skip(a.len() as int) =~= rest.take(x.len() as int));
        assert((a + x).skip(a.len() as int) =~= x);
    }
    assert(rest.take(y.len() as int) =~= y) by {
        assert(s.take((b + y).len() as int).skip(b.len() as int) =~= rest.take(y.len() as int));
        assert((b + y).skip(b.len() as int) =~= y);
    }
}

pub proof fn lemma_same_u64(s: Seq<u8>, a: u64, x: Seq<u8>, b: u64, y: Seq<u8>)
    requires
        begins_with(s, bytes::le64(a) + x),
        begins_with(s, bytes::le64(b) + y),
    ensures
        a == b,
        s.skip(8).len() + 8 == s.len(),
        begins_with(s.skip(8), x),
        begins_with(s.skip(8), y),
{
    bytes::lemma_le64(a);
    bytes::lemma_le64(b);
    lemma_same_start(s, bytes::le64(a), x, bytes::le64(b), y);
}

pub proof fn lemma_same_u32(s: Seq<u8>, a: u32, x: Seq<u8>, b: u32, y: Seq<u8>)
    requires
        begins_with(s, bytes::le32(a) + x),
        begins_with(s, bytes::le32(b) + y),
    ensures
        a == b,
        s.skip(4).len() + 4 == s.len(),
        begins_with(s.skip(4), x),
        begins_with(s.skip(4), y),
{
    bytes::lemma_le32(a);
    bytes::lemma_le32(b);
    lemma_same_start(s, bytes::le32(a), x, bytes::le32(b), y);
}

pub proof fn lemma_same_text(s: Seq<u8>, a: Seq<char>, b: Seq<char>)
    requires
        begins_with(s, text_bytes(a)),
        begins_with(s, text_bytes(b)),
        s.len() <= u64::MAX,
    ensures
        a == b,
{
    let x = vstd::utf8::encode_utf8(a);
    let y = vstd::utf8::encode_utf8(b);
    bytes::lemma_le_bytes_len(x.len(), 8);
    bytes::lemma_le_bytes_len(y.len(), 8);
    lemma_same_start(s, bytes::le_bytes(x.len(), 8), x, bytes::le_bytes(y.len(), 8), y);
    bytes::lemma_pow256();
    bytes::lemma_le_round_trip(x.len(), 8);
    bytes::lemma_le_round_trip(y.len(), 8);
    let rest = s.skip(8);
    assert(x =~= rest.take(x.len() as int));
    assert(y =~= rest.take(x.len() as int));
    vstd::utf8::encode_utf8_decode_utf8(a);
    vstd::utf8::encode_utf8_decode_utf8(b);
}

/// Bytes start with at most one header record.
#[verifier::spinoff_prover]
#[verifier::rlimit(60)]
pub proof fn metadata_is_unique(
    s: Seq<u8>,
    dim: usize,
    num_vectors: usize,
    max_degree: usize,
    medoid_id: u32,
    vectors_offset: u64,
    adjacency_offset: u64,
    distance_name: Seq<char>,
    dim2: usize,
    num_vectors2: usize,
    max_degree2: usize,
    medoid_id2: u32,
    vectors_offset2: u64,
    adjacency_offset2: u64,
    distance_name2: Seq<char>,
)
    requires
        s.len() <= u64::MAX,
        begins_with(
            s,
            metadata_bytes(
                dim,
                num_vectors,
                max_degree,
                medoid_id,
                vectors_offset,
                adjacency_offset,
                distance_name,
            ),
        ),
        begins_with(
            s,
            metadata_bytes(
                dim2,
                num_vectors2,
                max_degree2,
                medoid_id2,
                vectors_offset2,
                adjacency_offset2,
                distance_name2,
            ),
        ),
    ensures
        dim == dim2,
        num_vectors == num_vectors2,
        max_degree == max_degree2,
        medoid_id == medoid_id2,
        vectors_offset == vectors_offset2,
        adjacency_offset == adjacency_offset2,
        distance_name == distance_name2,
{
    let t6 = text_bytes(distance_name);
    let t5 = bytes::le64(adjacency_offset) + t6;
    let t4 = bytes::le64(vectors_offset) + t5;
    let t3 = bytes::le32(medoid_id) + t4;
    let t2 = bytes::le64(max_degree as u64) + t3;
    let t1 = bytes::le64(num_vectors as u64) + t2;
    let u6 = text_bytes(distance_name2);
    let u5 = bytes::le64(adjacency_offset2) + u6;
    let u4 = bytes::le64(vectors_offset2) + u5;
    let u3 = bytes::le32(medoid_id2) + u4;
    let u2 = bytes::le64(max_degree2 as u64) + u3;
    let u1 = bytes::le64(num_vectors2 as u64) + u2;
    assert(metadata_bytes(
        dim,
        num_vectors,
        max_degree,
        medoid_id,
        vectors_offset,
        adjacency_offset,
        distance_name,
    ) =~= bytes::le64(dim as u64) + t1);
    assert(metadata_bytes(
        dim2,
        num_vectors2,
        max_degree2,
        medoid_id2,
        vectors_offset2,
        adjacency_offset2,
        distance_name2,
    ) =~= bytes::le64(dim2 as u64) + u1);
    lemma_same_u64(s, dim as u64, t1, dim2 as u64, u1);
    let s1 = s.skip(8);
    lemma_same_u64(s1, num_vectors as u64, t2, num_vectors2 as u64, u2);
    let s2 = s1.skip(8);
    lemma_same_u64(s2, max_degree as u64, t3, max_degree2 as u64, u3);
    let s3 = s2.skip(8);
    lemma_same_u32(s3, medoid_id, t4, medoid_id2, u4);
    let s4 = s3.skip(4);
    lemma_same_u64(s4, vectors_offset, t5, vectors_offset2, u5);
    let s5 = s4.skip(8);
    lemma_same_u64(s5, adjacency_offset, t6, adjacency_offset2, u6);
    lemma_same_text(s5.skip(8), distance_name, distance_name2);
}

/// A list of 32-bit numbers as bincode writes it: its length, and the numbers.
pub open spec fn list_bytes(list: Seq<u32>) -> Seq<u8> {
    bytes::le_bytes(list.len(), 8) + bytes::word_bytes(list)
}

/// Calls `bincode::deserialize` for a 32-bit number, such as the tag that an enum begins
/// with. It succeeds when there are four bytes, whatever follows.
#[verifier::external_body]
pub(crate) fn deserialize_tag(s: &[u8]) -> (r: Result<u32, Box<bincode::ErrorKind>>)
    ensures
        r is Ok ==> begins_with(s@, bytes::le32(r->Ok_0)),
        r is Err ==> s@.len() < 4,
{
    bincode::deserialize(s)
}

/// Calls `serde::de::Error::invalid_value` for bincode's error: what reading an enum gives
/// when the tag that it begins with names none of its variants.
#[verifier::external_body]
pub(crate) fn unknown_variant(tag: u32, expected: &str) -> (r: Box<bincode::ErrorKind>)
{
    let found = serde::de::Unexpected::Unsigned(tag as u64);
    <Box<bincode::ErrorKind> as serde::de::Error>::invalid_value(found, &expected)
}

/// The record of a product quantizer: the tag 0, and its fields.
pub open spec fn pq_bytes(
    dim: usize,
    num_subspaces: usize,
    num_centroids: usize,
    subspace_dim: usize,
    codebooks: Seq<u32>,
) -> Seq<u8> {
    bytes::le32(0) + bytes::le64(dim as u64) + bytes::le64(num_subspaces as u64) + bytes::le64(num_centroids as u64) + bytes::le64(subspace_dim as u64) + list_bytes(codebooks)
}

/// Calls `bincode::serialize` on the tag and the fields of a product quantizer. It writes
/// them one after the other, integers little-endian, and lists by their length and
/// their items. Writing to memory does not fail.
#[verifier::external_body]
pub(crate) fn serialize_pq(dim: usize, num_subspaces: usize, num_centroids: usize, subspace_dim: usize, codebooks: &Vec<u32>) -> (r: Result<Vec<u8>, Box<bincode::ErrorKind>>)
    ensures
        r is Ok,
        r->Ok_0@ == pq_bytes(dim, num_subspaces, num_centroids, subspace_dim, codebooks@),
{
    bincode::serialize(&(0u32, dim, num_subspaces, num_centroids, subspace_dim, codebooks))
}

/// Calls `bincode::deserialize` for the tag and the fields of a product quantizer. It succeeds
/// when the bytes start with such a record under any tag, whatever follows.
#[verifier::external_body]
pub(crate) fn deserialize_pq(s: &[u8]) -> (r: Result<(u32, usize, usize, usize, usize, Vec<u32>), Box<bincode::ErrorKind>>)
    ensures
        r is Ok && begins_with(s@, bytes::le32(0)) ==> begins_with(s@, pq_bytes(r->Ok_0.1, r->Ok_0.2, r->Ok_0.3, r->Ok_0.4, r->Ok_0.5@)),
        r is Err ==> forall|dim: usize, num_subspaces: usize, num_centroids: usize, subspace_dim: usize, codebooks: Seq<u32>| !begins_with(s@, #[trigger] pq_bytes(dim, num_subspaces, num_centroids, subspace_dim, codebooks)),
{
    bincode::deserialize(s)
}

/// The record of a half-precision quantizer: the tag 1, and its fields.
pub open spec fn f16_bytes(
    dim: usize,
) -> Seq<u8> {
    bytes::le32(1) + bytes::le64(dim as u64)
}

/// Calls `bincode::serialize` on the tag and the fields of a half-precision quantizer. It writes
/// them one after the other, integers little-endian, and lists by their length and
/// their items. Writing to memory does not fail.
#[verifier::external_body]
pub(crate) fn serialize_f16(dim: usize) -> (r: Result<Vec<u8>, Box<bincode::ErrorKind>>)
    ensures
        r is Ok,
        r->Ok_0@ == f16_bytes(dim),
{
    bincode::serialize(&(1u32, dim))
}

/// Calls `bincode::deserialize` for the tag and the fields of a half-precision quantizer. It succeeds
/// when the bytes start with such a record under any tag, whatever follows.
#[verifier::external_body]
pub(crate) fn deserialize_f16(s: &[u8]) -> (r: Result<(u32, usize), Box<bincode::ErrorKind>>)
    ensures
        r is Ok && begins_with(s@, bytes::le32(1)) ==> begins_with(s@, f16_bytes(r->Ok_0.1)),
        r is Err ==> forall|dim: usize| !begins_with(s@, #[trigger] f16_bytes(dim)),
{
    bincode::deserialize(s)
}

/// The record of a byte quantizer: the tag 2, and its fields.
pub open spec fn int8_bytes(
    dim: usize,
    scale: Seq<u32>,
    offset: Seq<u32>,
) -> Seq<u8> {
    bytes::le32(2) + bytes::le64(dim as u64) + list_bytes(scale) + list_bytes(offset)
}

/// Calls `bincode::serialize` on the tag and the fields of a byte quantizer. It writes
/// them one after the other, integers little-endian, and lists by their length and
/// their items. Writing to memory does not fail.
#[verifier::external_body]
pub(crate) fn serialize_int8(dim: usize, scale: &Vec<u32>, offset: &Vec<u32>) -> (r: Result<Vec<u8>, Box<bincode::ErrorKind>>)
    ensures
        r is Ok,
        r->Ok_0@ == int8_bytes(dim, scale@, offset@),
{
    bincode::serialize(&(2u32, dim, scale, offset))
}

/// Calls `bincode::deserialize` for the tag and the fields of a byte quantizer. It succeeds
/// when the bytes start with such a record under any tag, whatever follows.
#[verifier::external_body]
pub(crate) fn deserialize_int8(s: &[u8]) -> (r: Result<(u32, usize, Vec<u32>, Vec<u32>), Box<bincode::ErrorKind>>)
    ensures
        r is Ok && begins_with(s@, bytes::le32(2)) ==> begins_with(s@, int8_bytes(r->Ok_0.1, r->Ok_0.2@, r->Ok_0.3@)),
        r is Err ==> forall|dim: usize, scale: Seq<u32>, offset: Seq<u32>| !begins_with(s@, #[trigger] int8_bytes(dim, scale, offset)),
{
    bincode::deserialize(s)
}

/// The record of a bit quantizer: the tag 3, and its fields.
pub open spec fn rabitq_bytes(
    dim: usize,
    padded: usize,
    centroid: Seq<u32>,
    signs: Seq<u32>,
) -> Seq<u8> {
    bytes::le32(3) + bytes::le64(dim as u64) + bytes::le64(padded as u64) + list_bytes(centroid) + list_bytes(signs)
}

/// Calls `bincode::serialize` on the tag and the fields of a bit quantizer. It writes
/// them one after the other, integers little-endian, and lists by their length and
/// their items. Writing to memory does not fail.
#[verifier::external_body]
pub(crate) fn serialize_rabitq(dim: usize, padded: usize, centroid: &Vec<u32>, signs: &Vec<u32>) -> (r: Result<Vec<u8>, Box<bincode::ErrorKind>>)
    ensures
        r is Ok,
        r->Ok_0@ == rabitq_bytes(dim, padded, centroid@, signs@),
{
    bincode::serialize(&(3u32, dim, padded, centroid, signs))
}

/// Calls `bincode::deserialize` for the tag and the fields of a bit quantizer. It succeeds
/// when the bytes start with such a record under any tag, whatever follows.
#[verifier::external_body]
pub(crate) fn deserialize_rabitq(s: &[u8]) -> (r: Result<(u32, usize, usize, Vec<u32>, Vec<u32>), Box<bincode::ErrorKind>>)
    ensures
        r is Ok && begins_with(s@, bytes::le32(3)) ==> begins_with(s@, rabitq_bytes(r->Ok_0.1, r->Ok_0.2, r->Ok_0.3@, r->Ok_0.4@)),
        r is Err ==> forall|dim: usize, padded: usize, centroid: Seq<u32>, signs: Seq<u32>| !begins_with(s@, #[trigger] rabitq_bytes(dim, padded, centroid, signs)),
{
    bincode::deserialize(s)
}

pub proof fn lemma_same_list(s: Seq<u8>, a: Seq<u32>, x: Seq<u8>, b: Seq<u32>, y: Seq<u8>)
    requires
        s.len() <= u64::MAX,
        begins_with(s, list_bytes(a) + x),
        begins_with(s, list_bytes(b) + y),
    ensures
        a == b,
        s.skip(list_bytes(a).len() as int).len() + list_bytes(a).len() == s.len(),
        begins_with(s.skip(list_bytes(a).len() as int), x),
        begins_with(s.skip(list_bytes(a).len() as int), y),
{
    let la = bytes::le_bytes(a.len(), 8);
    let lb = bytes::le_bytes(b.len(), 8);
    bytes::lemma_le_bytes_len(a.len(), 8);
    bytes::lemma_le_bytes_len(b.len(), 8);
    bytes::lemma_word_bytes_len(a);
    bytes::lemma_word_bytes_len(b);
    assert(list_bytes(a) + x =~= la + (bytes::word_bytes(a) + x));
    assert(list_bytes(b) + y =~= lb + (bytes::word_bytes(b) + y));
    lemma_same_start(s, la, bytes::word_bytes(a) + x, lb, bytes::word_bytes(b) + y);
    bytes::lemma_pow256();
    bytes::lemma_le_round_trip(a.len(), 8);
    bytes::lemma_le_round_trip(b.len(), 8);
    let rest = s.skip(8);
    lemma_same_start(rest, bytes::word_bytes(a), x, bytes::word_bytes(b), y);
    bytes::lemma_words_of_word_bytes(Seq::empty(), a, Seq::empty());
    bytes::lemma_words_of_word_bytes(Seq::empty(), b, Seq::empty());
    assert(Seq::<u8>::empty() + bytes::word_bytes(a) + Seq::<u8>::empty() =~= bytes::word_bytes(a));
    assert(Seq::<u8>::empty() + bytes::word_bytes(b) + Seq::<u8>::empty() =~= bytes::word_bytes(b));
    assert(rest.skip(bytes::word_bytes(a).len() as int) =~= s.skip(list_bytes(a).len() as int));
}

/// The head of labels: how many vectors have them, and how many fields there are.
pub open spec fn label_head_bytes(num_vectors: usize, num_fields: usize) -> Seq<u8> {
    bytes::le64(num_vectors as u64) + bytes::le64(num_fields as u64)
}

/// Calls `bincode::serialize` on the two numbers at the head of labels. It writes each as
/// 64 bits, little-endian. Writing to memory does not fail.
#[verifier::external_body]
pub(crate) fn serialize_label_head(num_vectors: usize, num_fields: usize) -> (r: Result<
    Vec<u8>,
    Box<bincode::ErrorKind>,
>)
    ensures
        r is Ok,
        r->Ok_0@ == label_head_bytes(num_vectors, num_fields),
{
    bincode::serialize(&(num_vectors, num_fields))
}

/// Calls `bincode::deserialize` for the two numbers at the head of labels. It succeeds when
/// the bytes start with them, whatever follows.
#[verifier::external_body]
pub(crate) fn deserialize_label_head(s: &[u8]) -> (r: Result<
    (usize, usize),
    Box<bincode::ErrorKind>,
>)
    ensures
        r is Ok ==> begins_with(s@, label_head_bytes(r->Ok_0.0, r->Ok_0.1)),
        r is Err ==> forall|num_vectors: usize, num_fields: usize|
            !begins_with(s@, #[trigger] label_head_bytes(num_vectors, num_fields)),
{
    bincode::deserialize(s)
}

/// A list of 64-bit numbers as bincode writes it: its length, and the numbers.
pub open spec fn long_list_bytes(list: Seq<u64>) -> Seq<u8> {
    bytes::le_bytes(list.len(), 8) + bytes::long_bytes(list)
}

/// Lists of 32-bit numbers, one after the other.
pub open spec fn lists_bytes(rows: Seq<Seq<u32>>) -> Seq<u8>
    decreases rows.len(),
{
    if rows.len() == 0 {
        Seq::empty()
    } else {
        list_bytes(rows[0]) + lists_bytes(rows.skip(1))
    }
}

/// A list of lists of 32-bit numbers as bincode writes it: its length, and the lists.
pub open spec fn table_bytes(rows: Seq<Seq<u32>>) -> Seq<u8> {
    bytes::le_bytes(rows.len(), 8) + lists_bytes(rows)
}

/// A presence as bincode writes it: one byte.
pub open spec fn presence_bytes(present: bool) -> Seq<u8> {
    if present {
        seq![1u8]
    } else {
        seq![0u8]
    }
}

/// The head of the description of an index of postings: its dimension, its
/// configuration, and whether a quantizer follows.
pub open spec fn meta_head_bytes(
    dim: usize,
    max_posting_size: usize,
    min_posting_size: usize,
    probe_ratio: u32,
    rerank_size: usize,
    reassign_neighbors: usize,
    centroid_beam: usize,
    coded: bool,
) -> Seq<u8> {
    bytes::le64(dim as u64) + (bytes::le64(max_posting_size as u64) + (bytes::le64(
        min_posting_size as u64,
    ) + (bytes::le32(probe_ratio) + (bytes::le64(rerank_size as u64) + (bytes::le64(
        reassign_neighbors as u64,
    ) + (bytes::le64(centroid_beam as u64) + presence_bytes(coded)))))))
}

/// Calls `bincode::serialize` on the fields at the head of a description. It writes
/// them one after the other: integers little-endian, sizes as 64 bits, the presence
/// as a byte. Writing to memory does not fail.
#[verifier::external_body]
pub(crate) fn serialize_meta_head(
    dim: usize,
    max_posting_size: usize,
    min_posting_size: usize,
    probe_ratio: u32,
    rerank_size: usize,
    reassign_neighbors: usize,
    centroid_beam: usize,
    coded: Option<()>,
) -> (r: Result<Vec<u8>, Box<bincode::ErrorKind>>)
    ensures
        r is Ok,
        r->Ok_0@ == meta_head_bytes(
            dim,
            max_posting_size,
            min_posting_size,
            probe_ratio,
            rerank_size,
            reassign_neighbors,
            centroid_beam,
            coded is Some,
        ),
{
    bincode::serialize(
        &(
            dim,
            max_posting_size,
            min_posting_size,
            probe_ratio,
            rerank_size,
            reassign_neighbors,
            centroid_beam,
            coded,
        ),
    )
}

/// Calls `bincode::deserialize` for the fields at the head of a description. It succeeds
/// when the bytes start with such a head, whatever follows, and returns its fields.
#[verifier::external_body]
pub(crate) fn deserialize_meta_head(s: &[u8]) -> (r: Result<
    (usize, usize, usize, u32, usize, usize, usize, Option<()>),
    Box<bincode::ErrorKind>,
>)
    ensures
        r is Ok ==> begins_with(
            s@,
            meta_head_bytes(
                r->Ok_0.0,
                r->Ok_0.1,
                r->Ok_0.2,
                r->Ok_0.3,
                r->Ok_0.4,
                r->Ok_0.5,
                r->Ok_0.6,
                r->Ok_0.7 is Some,
            ),
        ),
        r is Err ==> forall|
            dim: usize,
            max_posting_size: usize,
            min_posting_size: usize,
            probe_ratio: u32,
            rerank_size: usize,
            reassign_neighbors: usize,
            centroid_beam: usize,
            coded: bool,
        |
            !begins_with(
                s@,
                #[trigger] meta_head_bytes(
                    dim,
                    max_posting_size,
                    min_posting_size,
                    probe_ratio,
                    rerank_size,
                    reassign_neighbors,
                    centroid_beam,
                    coded,
                ),
            ),
{
    bincode::deserialize(s)
}

/// The rest of the description of an index of postings: the centroids of its blocks, the
/// ids given out and deleted, and the number of those left.
pub open spec fn meta_tail_bytes(
    block_cid: Seq<u64>,
    block_centroid: Seq<Seq<u32>>,
    next_id: u64,
    deleted: Seq<u64>,
    live: usize,
) -> Seq<u8> {
    long_list_bytes(block_cid) + (table_bytes(block_centroid) + (bytes::le64(next_id) + (
    long_list_bytes(deleted) + bytes::le64(live as u64))))
}

/// Calls `bincode::serialize` on the fields at the end of a description. It writes them
/// one after the other, lists by their length and their items. Writing to memory does
/// not fail.
#[verifier::external_body]
pub(crate) fn serialize_meta_tail(
    block_cid: &Vec<u64>,
    block_centroid: &Vec<Vec<u32>>,
    next_id: u64,
    deleted: &Vec<u64>,
    live: usize,
) -> (r: Result<Vec<u8>, Box<bincode::ErrorKind>>)
    ensures
        r is Ok,
        r->Ok_0@ == meta_tail_bytes(
            block_cid@,
            metric::rows(block_centroid@),
            next_id,
            deleted@,
            live,
        ),
{
    bincode::serialize(&(block_cid, block_centroid, next_id, deleted, live))
}

/// Calls `bincode::deserialize` for the fields at the end of a description. It succeeds
/// when the bytes start with them, whatever follows, and returns them.
#[verifier::external_body]
pub(crate) fn deserialize_meta_tail(s: &[u8]) -> (r: Result<
    (Vec<u64>, Vec<Vec<u32>>, u64, Vec<u64>, usize),
    Box<bincode::ErrorKind>,
>)
    ensures
        r is Ok ==> begins_with(
            s@,
            meta_tail_bytes(
                r->Ok_0.0@,
                metric::rows(r->Ok_0.1@),
                r->Ok_0.2,
                r->Ok_0.3@,
                r->Ok_0.4,
            ),
        ),
        r is Err ==> forall|
            block_cid: Seq<u64>,
            block_centroid: Seq<Seq<u32>>,
            next_id: u64,
            deleted: Seq<u64>,
            live: usize,
        |
            !begins_with(
                s@,
                #[trigger] meta_tail_bytes(block_cid, block_centroid, next_id, deleted, live),
            ),
{
    bincode::deserialize(s)
}

/// Calls `bincode::serialize` on a 64-bit number. It writes eight bytes, little-endian.
/// Writing to memory does not fail.
#[verifier::external_body]
pub(crate) fn serialize_number(n: u64) -> (r: Result<Vec<u8>, Box<bincode::ErrorKind>>)
    ensures
        r is Ok,
        r->Ok_0@ == bytes::le64(n),
{
    bincode::serialize(&n)
}

/// Calls `bincode::deserialize` for a 64-bit number. It succeeds when there are eight
/// bytes, whatever follows.
#[verifier::external_body]
pub(crate) fn deserialize_number(s: &[u8]) -> (r: Result<u64, Box<bincode::ErrorKind>>)
    ensures
        r is Ok ==> begins_with(s@, bytes::le64(r->Ok_0)),
        r is Err ==> s@.len() < 8,
{
    bincode::deserialize(s)
}

/// Calls `bincode::serialize` on two lists of 64-bit numbers. It writes each by its length
/// and its items. Writing to memory does not fail.
#[verifier::external_body]
pub(crate) fn serialize_two_lists(a: &Vec<u64>, b: &Vec<u64>) -> (r: Result<
    Vec<u8>,
    Box<bincode::ErrorKind>,
>)
    ensures
        r is Ok,
        r->Ok_0@ == two_lists_bytes(a@, b@),
{
    bincode::serialize(&(a, b))
}

/// Two lists, one after the other.
pub open spec fn two_lists_bytes(a: Seq<u64>, b: Seq<u64>) -> Seq<u8> {
    long_list_bytes(a) + long_list_bytes(b)
}

/// Calls `bincode::deserialize` for two lists of 64-bit numbers. It succeeds when the bytes
/// start with two such lists, whatever follows, and returns them.
#[verifier::external_body]
pub(crate) fn deserialize_two_lists(s: &[u8]) -> (r: Result<
    (Vec<u64>, Vec<u64>),
    Box<bincode::ErrorKind>,
>)
    ensures
        r is Ok ==> begins_with(s@, two_lists_bytes(r->Ok_0.0@, r->Ok_0.1@)),
        r is Err ==> forall|a: Seq<u64>, b: Seq<u64>|
            !begins_with(s@, #[trigger] two_lists_bytes(a, b)),
{
    bincode::deserialize(s)
}

pub proof fn lemma_same_longs(s: Seq<u8>, a: Seq<u64>, x: Seq<u8>, b: Seq<u64>, y: Seq<u8>)
    requires
        s.len() <= u64::MAX,
        begins_with(s, long_list_bytes(a) + x),
        begins_with(s, long_list_bytes(b) + y),
    ensures
        a == b,
        s.skip(long_list_bytes(a).len() as int).len() + long_list_bytes(a).len() == s.len(),
        begins_with(s.skip(long_list_bytes(a).len() as int), x),
        begins_with(s.skip(long_list_bytes(a).len() as int), y),
{
    let la = bytes::le_bytes(a.len(), 8);
    let lb = bytes::le_bytes(b.len(), 8);
    bytes::lemma_le_bytes_len(a.len(), 8);
    bytes::lemma_le_bytes_len(b.len(), 8);
    bytes::lemma_long_bytes_len(a);
    bytes::lemma_long_bytes_len(b);
    assert(long_list_bytes(a) + x =~= la + (bytes::long_bytes(a) + x));
    assert(long_list_bytes(b) + y =~= lb + (bytes::long_bytes(b) + y));
    lemma_same_start(s, la, bytes::long_bytes(a) + x, lb, bytes::long_bytes(b) + y);
    bytes::lemma_pow256();
    bytes::lemma_le_round_trip(a.len(), 8);
    bytes::lemma_le_round_trip(b.len(), 8);
    let rest = s.skip(8);
    lemma_same_start(rest, bytes::long_bytes(a), x, bytes::long_bytes(b), y);
    let none = Seq::<u8>::empty();
    bytes::lemma_longs_of_long_bytes(none, a, none);
    bytes::lemma_longs_of_long_bytes(none, b, none);
    assert(none + bytes::long_bytes(a) + none =~= bytes::long_bytes(a));
    assert(none + bytes::long_bytes(b) + none =~= bytes::long_bytes(b));
    assert(rest.skip(bytes::long_bytes(a).len() as int) =~= s.skip(
        long_list_bytes(a).len() as int,
    ));
}

proof fn lemma_lists_len(rows: Seq<Seq<u32>>)
    ensures
        lists_bytes(rows).len() >= 8 * rows.len(),
    decreases rows.len(),
{
    if rows.len() > 0 {
        lemma_lists_len(rows.skip(1));
        bytes::lemma_le_bytes_len(rows[0].len(), 8);
    }
}

proof fn lemma_same_lists(
    s: Seq<u8>,
    a: Seq<Seq<u32>>,
    x: Seq<u8>,
    b: Seq<Seq<u32>>,
    y: Seq<u8>,
)
    requires
        s.len() <= u64::MAX,
        a.len() == b.len(),
        begins_with(s, lists_bytes(a) + x),
        begins_with(s, lists_bytes(b) + y),
    ensures
        a == b,
        begins_with(s.skip(lists_bytes(a).len() as int), x),
        begins_with(s.skip(lists_bytes(a).len() as int), y),
    decreases a.len(),
{
    if a.len() == 0 {
        assert(a =~= b);
        assert(lists_bytes(a) + x =~= x);
        assert(lists_bytes(b) + y =~= y);
        assert(s.skip(0) =~= s);
    } else {
        let ra = lists_bytes(a.skip(1)) + x;
        let rb = lists_bytes(b.skip(1)) + y;
        assert(lists_bytes(a) + x =~= list_bytes(a[0]) + ra);
        assert(lists_bytes(b) + y =~= list_bytes(b[0]) + rb);
        lemma_same_list(s, a[0], ra, b[0], rb);
        let n = list_bytes(a[0]).len() as int;
        let rest = s.skip(n);
        lemma_same_lists(rest, a.skip(1), x, b.skip(1), y);
        assert(a =~= seq![a[0]] + a.skip(1));
        assert(b =~= seq![b[0]] + b.skip(1));
        assert(rest.skip(lists_bytes(a.skip(1)).len() as int) =~= s.skip(
            lists_bytes(a).len() as int,
        ));
    }
}

pub proof fn lemma_same_table(
    s: Seq<u8>,
    a: Seq<Seq<u32>>,
    x: Seq<u8>,
    b: Seq<Seq<u32>>,
    y: Seq<u8>,
)
    requires
        s.len() <= u64::MAX,
        begins_with(s, table_bytes(a) + x),
        begins_with(s, table_bytes(b) + y),
    ensures
        a == b,
        begins_with(s.skip(table_bytes(a).len() as int), x),
        begins_with(s.skip(table_bytes(a).len() as int), y),
{
    let la = bytes::le_bytes(a.len(), 8);
    let lb = bytes::le_bytes(b.len(), 8);
    bytes::lemma_le_bytes_len(a.len(), 8);
    bytes::lemma_le_bytes_len(b.len(), 8);
    assert(table_bytes(a) + x =~= la + (lists_bytes(a) + x));
    assert(table_bytes(b) + y =~= lb + (lists_bytes(b) + y));
    lemma_same_start(s, la, lists_bytes(a) + x, lb, lists_bytes(b) + y);
    lemma_lists_len(a);
    lemma_lists_len(b);
    bytes::lemma_pow256();
    bytes::lemma_le_round_trip(a.len(), 8);
    bytes::lemma_le_round_trip(b.len(), 8);
    let rest = s.skip(8);
    lemma_same_lists(rest, a, x, b, y);
    assert(rest.skip(lists_bytes(a).len() as int) =~= s.skip(table_bytes(a).len() as int));
}

} // verus!
