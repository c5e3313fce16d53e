//! Embedding vectors: how they are computed, stored and compared.
//!
//! A component is a 32-bit floating-point number. It is held here as its bit
//! pattern; the arithmetic on the numbers themselves is the embedder's.

use vstd::prelude::*;
use vstd::string::*;

use crate::decimal::{decimal, push_count};
use crate::error::{Error, Result};

verus! {

/// How many components the vectors of the bundled model have.
pub const EMBEDDING_DIM: usize = 384;

/// Turns text into vectors of unit length, and compares such vectors.
pub trait TextEmbedder {
    /// The bit patterns of the components of the vector of `text`.
    fn embed(&self, text: &str) -> Result<Vec<u32>>;

    /// The bit pattern of the dot product of two vectors of one length: for
    /// vectors of unit length, the cosine of the angle between them.
    fn dot(a: &Vec<u32>, b: &Vec<u32>) -> u32;
}

/// The `k`th byte of a 32-bit word, the least significant first.
pub open spec fn byte_of(word: u32, k: int) -> u8 {
    if k == 0 {
        (word % 256) as u8
    } else if k == 1 {
        ((word / 256) % 256) as u8
    } else if k == 2 {
        ((word / 65536) % 256) as u8
    } else {
        (word / 16777216) as u8
    }
}

/// A vector as it is stored: the bit patterns one after the other, each with
/// its least significant byte first.
pub open spec fn blob_of(vector: Seq<u32>) -> Seq<u8> {
    Seq::new(4 * vector.len(), |i: int| byte_of(vector[i / 4], i % 4))
}

/// The `j`th word of a blob.
pub open spec fn word_at(blob: Seq<u8>, j: int) -> int {
    blob[4 * j] + 256 * blob[4 * j + 1] + 65536 * blob[4 * j + 2] + 16777216 * blob[4 * j + 3]
}

/// The vector that a blob holds.
pub open spec fn vector_of(blob: Seq<u8>) -> Option<Seq<u32>> {
    if blob.len() % 4 == 0 {
        Some(Seq::new(blob.len() / 4, |j: int| word_at(blob, j) as u32))
    } else {
        None
    }
}

/// The error for a blob that holds no vector.
pub open spec fn bad_vector(e: Error, blob: Seq<u8>) -> bool {
    e matches Error::CorruptRow { table, detail } && table@ == "embeddings"@ && detail@
        == "vector column had "@ + decimal(blob.len() as int) + " bytes, not a multiple of 4"@
}

/// The blob that stores a vector.
pub fn vector_to_blob(vector: &Vec<u32>) -> (blob: Vec<u8>)
    ensures
        blob@ == blob_of(vector@),
{
    let mut blob: Vec<u8> = Vec::new();
    let mut j: usize = 0;
    while j < vector.len()
        invariant
            j <= vector@.len(),
            blob@.len() == 4 * j,
            forall|i: int| 0 <= i < 4 * j ==> #[trigger] blob@[i] == byte_of(vector@[i / 4], i % 4),
        decreases vector.len() - j,
    {
        let w = vector[j];
        blob.push((w % 256) as u8);
        blob.push(((w / 256) % 256) as u8);
        blob.push(((w / 65536) % 256) as u8);
        blob.push((w / 16777216) as u8);
        j += 1;
        assert forall|i: int| 0 <= i < 4 * j implies #[trigger] blob@[i] == byte_of(
            vector@[i / 4],
            i % 4,
        ) by {
            if i >= 4 * (j - 1) {
                assert(i / 4 == j - 1);
            }
        }
    }
    assert(blob@ =~= blob_of(vector@));
    blob
}

/// The vector that a blob stores.
pub fn blob_to_vector(blob: &Vec<u8>) -> (r: Result<Vec<u32>>)
    ensures
        match r {
            Ok(vector) => vector_of(blob@) == Some(vector@),
            Err(e) => vector_of(blob@) is None && bad_vector(e, blob@),
        },
{
    if blob.len() % 4 != 0 {
        let mut detail = "vector column had ".to_owned();
        push_count(&mut detail, blob.len());
        detail.append(" bytes, not a multiple of 4");
        return Err(Error::CorruptRow { table: "embeddings", detail });
    }
    let mut vector: Vec<u32> = Vec::new();
    let mut p: usize = 0;
    while p < blob.len()
        invariant
            p <= blob@.len(),
            p % 4 == 0,
            blob@.len() % 4 == 0,
            vector@.len() == p / 4,
            forall|j: int| 0 <= j < vector@.len() ==> #[trigger] vector@[j] == word_at(blob@, j),
        decreases blob.len() - p,
    {
        assert(p + 4 <= blob@.len());
        let w: u32 = blob[p] as u32 + 256 * (blob[p + 1] as u32) + 65536 * (blob[p + 2] as u32)
            + 16777216 * (blob[p + 3] as u32);
        assert(w == word_at(blob@, p as int / 4)) by {
            assert(4 * (p as int / 4) == p);
        }
        vector.push(w);
        p += 4;
    }
    assert(vector@ =~= vector_of(blob@).unwrap());
    Ok(vector)
}

/// A stored vector is read back as it was.
pub proof fn law_vector_round_trips(vector: Seq<u32>)
    ensures
        vector_of(blob_of(vector)) == Some(vector),
{
    let blob = blob_of(vector);
    assert(blob.len() == 4 * vector.len());
    let back = vector_of(blob).unwrap();
    assert forall|j: int| 0 <= j < vector.len() implies back[j] == vector[j] by {
        let w = vector[j];
        assert((4 * j) / 4 == j && (4 * j) % 4 == 0);
        assert((4 * j + 1) / 4 == j && (4 * j + 1) % 4 == 1);
        assert((4 * j + 2) / 4 == j && (4 * j + 2) % 4 == 2);
        assert((4 * j + 3) / 4 == j && (4 * j + 3) % 4 == 3);
        assert(blob[4 * j] == byte_of(w, 0));
        assert(blob[4 * j + 1] == byte_of(w, 1));
        assert(blob[4 * j + 2] == byte_of(w, 2));
        assert(blob[4 * j + 3] == byte_of(w, 3));
        assert(word_at(blob, j) == w);
    }
    assert(back =~= vector);
}

/// The place of a floating-point number among all of them, negative ones and
/// the not-a-numbers of either sign included: IEEE 754's total order, read off
/// the bit pattern.
pub open spec fn float_place(bits: u32) -> int {
    if bits < 0x8000_0000 {
        bits as int
    } else {
        0x7fff_ffff - bits
    }
}

/// The place of a floating-point number among all of them.
pub fn place_of(bits: u32) -> (r: i64)
    ensures
        r == float_place(bits),
{
    if bits < 0x8000_0000 {
        bits as i64
    } else {
        0x7fff_ffff - bits as i64
    }
}

/// The bit pattern of one quarter.
pub const MIN_SEMANTIC_SIMILARITY_BITS: u32 = 0x3e80_0000;

/// The bit pattern of positive infinity.
pub const INFINITY_BITS: u32 = 0x7f80_0000;

/// A similarity of at least one quarter: results below it read as noise. No
/// not-a-number is at least anything.
pub open spec fn similar_enough(bits: u32) -> bool {
    MIN_SEMANTIC_SIMILARITY_BITS <= bits <= INFINITY_BITS
}

/// Floats are placed by their bits as their numbers are ordered: those without the
/// sign bit by the bits, those with it below all of them and the other way round.
pub proof fn law_float_order(a: u32, b: u32)
    ensures
        float_place(a) < float_place(b) <==> {
            ||| a >= 0x8000_0000 && b < 0x8000_0000
            ||| a < 0x8000_0000 && b < 0x8000_0000 && a < b
            ||| a >= 0x8000_0000 && b >= 0x8000_0000 && b < a
        },
{
}

} // verus!
