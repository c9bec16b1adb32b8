//! The stored form of a vector: each component as the four bytes of its 32
//! bits, lowest byte first.

use vstd::prelude::*;

verus! {

/// Byte `k` of a 32-bit word, counted from the lowest.
pub open spec fn byte_of(word: u32, k: int) -> u8 {
    if k == 0 {
        (word % 256) as u8
    } else if k == 1 {
        (word / 256 % 256) as u8
    } else if k == 2 {
        (word / 65536 % 256) as u8
    } else {
        (word / 16777216) as u8
    }
}

/// The word whose four bytes, lowest first, start at position `4 * i` of
/// `blob`.
pub open spec fn word_at(blob: Seq<u8>, i: int) -> u32 {
    (blob[4 * i] + 256 * blob[4 * i + 1] + 65536 * blob[4 * i + 2] + 16777216 * blob[4 * i
        + 3]) as u32
}

/// The stored form of a list of words.
pub open spec fn stored(words: Seq<u32>) -> Seq<u8> {
    Seq::new(4 * words.len(), |p: int| byte_of(words[p / 4], p % 4))
}

/// The words of a stored form that holds `dim` of them.
pub open spec fn loaded(blob: Seq<u8>, dim: int) -> Seq<u32> {
    Seq::new(dim as nat, |i: int| word_at(blob, i))
}

/// Reading what was written gives the words back.
pub proof fn stored_reads_back(words: Seq<u32>)
    ensures
        loaded(stored(words), words.len() as int) == words,
{
    let blob = stored(words);
    assert forall|i: int| 0 <= i < words.len() implies word_at(blob, i) == words[i] by {
        let w = words[i];
        assert((4 * i) / 4 == i && (4 * i) % 4 == 0);
        assert((4 * i + 1) / 4 == i && (4 * i + 1) % 4 == 1);
        assert((4 * i + 2) / 4 == i && (4 * i + 2) % 4 == 2);
        assert((4 * i + 3) / 4 == i && (4 * i + 3) % 4 == 3);
        assert(blob[4 * i] == byte_of(w, 0));
        assert(blob[4 * i + 1] == byte_of(w, 1));
        assert(blob[4 * i + 2] == byte_of(w, 2));
        assert(blob[4 * i + 3] == byte_of(w, 3));
        lemma_bytes_make_word(w);
    }
    assert(loaded(blob, words.len() as int) =~= words);
}

/// The four bytes of a word make the word.
proof fn lemma_bytes_make_word(w: u32)
    ensures
        byte_of(w, 0) + 256 * byte_of(w, 1) + 65536 * byte_of(w, 2) + 16777216 * byte_of(w, 3)
            == w,
{
}

/// Writes a vector in its stored form.
pub fn encode_vector(words: &Vec<u32>) -> (blob: Vec<u8>)
    ensures
        blob@ == stored(words@),
{
    let mut blob: Vec<u8> = Vec::new();
    let mut i: usize = 0;
    while i < words.len()
        invariant
            i <= words.len(),
            blob.len() == 4 * i,
            forall|p: int| 0 <= p < 4 * i ==> #[trigger] blob[p] == byte_of(words[p / 4], p % 4),
        decreases words.len() - i,
    {
        let w: u32 = words[i];
        blob.push((w % 256) as u8);
        blob.push((w / 256 % 256) as u8);
        blob.push((w / 65536 % 256) as u8);
        blob.push((w / 16777216) as u8);
        i = i + 1;
    }
    proof {
        assert(blob@ =~= stored(words@));
    }
    blob
}

/// Reads a vector of `dim` components from its stored form. `None` where
/// `dim` is negative or `blob` does not have four bytes for each component,
/// no more and no fewer.
pub fn decode_vector(blob: &[u8], dim: i64) -> (vector: Option<Vec<u32>>)
    ensures
        vector is Some <==> 0 <= dim && blob.len() == 4 * dim,
        vector matches Some(words) ==> words@ == loaded(blob@, dim as int),
{
    if dim < 0 {
        return None;
    }
    let n: usize = blob.len();
    if n % 4 != 0 || (n / 4) as u64 != dim as u64 {
        return None;
    }
    let count: usize = n / 4;
    let mut words: Vec<u32> = Vec::new();
    let mut i: usize = 0;
    while i < count
        invariant
            i <= count,
            n == blob.len(),
            n == 4 * count,
            words.len() == i,
            forall|j: int| 0 <= j < i ==> #[trigger] words[j] == word_at(blob@, j),
        decreases count - i,
    {
        let b0: u32 = blob[4 * i] as u32;
        let b1: u32 = blob[4 * i + 1] as u32;
        let b2: u32 = blob[4 * i + 2] as u32;
        let b3: u32 = blob[4 * i + 3] as u32;
        words.push(b0 + 256 * b1 + 65536 * b2 + 16777216 * b3);
        i = i + 1;
    }
    proof {
        assert(words@ =~= loaded(blob@, dim as int));
    }
    Some(words)
}

} // verus!
