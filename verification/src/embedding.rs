//! Tokens of a text and the hashed, signed token counts that stand for it.

use vstd::prelude::*;
use vstd::utf8::encode_utf8;
use crate::text::{
    alphanumeric, chars_of, lemma_texts_push, lemma_trim_ends_stay, lowercase, string_of, texts,
    trim, trim_bounds, Margin,
};

verus! {

/// The character can stand in a token: it is alphanumeric or an apostrophe.
/// Every other character separates tokens.
pub open spec fn is_word_char(c: char) -> bool {
    alphanumeric(c) || c == '\''
}

/// The number of word characters at the start of `s`, up to the first
/// separator.
pub open spec fn run_length(s: Seq<char>) -> int
    decreases s.len(),
{
    if s.len() > 0 && is_word_char(s[0]) {
        1 + run_length(s.drop_first())
    } else {
        0
    }
}

/// The tokens of a lower-case text: it is cut at every separator, each piece
/// loses the apostrophes at its two ends, and what is left counts as a token
/// where it has at least two characters.
pub open spec fn tokens(s: Seq<char>) -> Seq<Seq<char>>
    decreases s.len(),
{
    if s.len() == 0 {
        Seq::empty()
    } else {
        let run = run_length(s);
        let word = trim(s.take(run), Margin::Quotes);
        let rest = if 0 <= run < s.len() {
            tokens(s.skip(run + 1))
        } else {
            Seq::empty()
        };
        if word.len() >= 2 {
            seq![word] + rest
        } else {
            rest
        }
    }
}

/// A run of word characters that a separator or the end closes is the
/// leading run.
pub proof fn lemma_run_length(s: Seq<char>, r: int)
    requires
        0 <= r <= s.len(),
        forall|i: int| 0 <= i < r ==> is_word_char(#[trigger] s[i]),
        r < s.len() ==> !is_word_char(s[r]),
    ensures
        run_length(s) == r,
    decreases r,
{
    if r > 0 {
        let rest = s.drop_first();
        assert forall|i: int| 0 <= i < r - 1 implies is_word_char(#[trigger] rest[i]) by {
            assert(rest[i] == s[i + 1]);
        }
        lemma_run_length(rest, r - 1);
    }
}

/// The leading run lies within the text and holds word characters only.
pub proof fn lemma_run_is_words(s: Seq<char>)
    ensures
        0 <= run_length(s) <= s.len(),
        forall|i: int| 0 <= i < run_length(s) ==> is_word_char(#[trigger] s[i]),
        run_length(s) < s.len() ==> !is_word_char(s[run_length(s)]),
    decreases s.len(),
{
    if s.len() > 0 && is_word_char(s[0]) {
        let rest = s.drop_first();
        lemma_run_is_words(rest);
        assert forall|i: int| 0 <= i < run_length(s) implies is_word_char(#[trigger] s[i]) by {
            if i > 0 {
                assert(s[i] == rest[i - 1]);
            }
        }
    }
}

/// Every token has at least two characters and neither starts nor ends with
/// an apostrophe; the tokens together are no longer than the text, so there
/// are at most half as many tokens as characters.
pub proof fn tokens_are_words(s: Seq<char>)
    ensures
        forall|i: int|
            0 <= i < tokens(s).len() ==> {
                &&& (#[trigger] tokens(s)[i]).len() >= 2
                &&& tokens(s)[i][0] != '\''
                &&& tokens(s)[i].last() != '\''
            },
        2 * tokens(s).len() <= s.len(),
    decreases s.len(),
{
    if s.len() > 0 {
        let run = run_length(s);
        lemma_run_is_words(s);
        let word = trim(s.take(run), Margin::Quotes);
        lemma_trim_ends_stay(s.take(run), Margin::Quotes);
        if run < s.len() {
            tokens_are_words(s.skip(run + 1));
        }
    }
}

/// Tokens keep the order of the text: the tokens of two texts with a
/// separator between them are the tokens of the first followed by the
/// tokens of the second.
pub proof fn tokens_keep_order(a: Seq<char>, sep: char, b: Seq<char>)
    requires
        !is_word_char(sep),
    ensures
        tokens(a + seq![sep] + b) == tokens(a) + tokens(b),
    decreases a.len(),
{
    let whole = a + seq![sep] + b;
    lemma_run_is_words(a);
    let run = run_length(a);
    assert(run_length(whole) == run) by {
        assert forall|i: int| 0 <= i < run implies is_word_char(#[trigger] whole[i]) by {
            assert(whole[i] == a[i]);
        }
        if run < a.len() {
            assert(whole[run] == a[run]);
        } else {
            assert(whole[run] == sep);
        }
        lemma_run_length(whole, run);
    }
    assert(whole.take(run) =~= a.take(run));
    if a.len() == 0 {
        assert(whole.skip(1) =~= b);
        assert(tokens(a) + tokens(b) =~= tokens(b));
        assert(trim(whole.take(0), Margin::Quotes).len() == 0) by {
            lemma_trim_ends_stay(whole.take(0), Margin::Quotes);
        }
    } else if run == a.len() {
        assert(whole.skip(run + 1) =~= b);
        let word = trim(a.take(run), Margin::Quotes);
        if word.len() >= 2 {
            assert(tokens(a) =~= seq![word]);
        } else {
            assert(tokens(a) =~= Seq::<Seq<char>>::empty());
            assert(tokens(a) + tokens(b) =~= tokens(b));
        }
    } else {
        let tail = a.skip(run + 1);
        assert(whole.skip(run + 1) =~= tail + seq![sep] + b);
        tokens_keep_order(tail, sep, b);
        let word = trim(a.take(run), Margin::Quotes);
        if word.len() >= 2 {
            assert(seq![word] + (tokens(tail) + tokens(b)) =~= (seq![word] + tokens(tail)) + tokens(
                b,
            ));
        }
    }
}

/// Cuts a text into its tokens as it stands, without changing its case.
pub fn split_words(s: &str) -> (out: Vec<String>)
    ensures
        texts(out@) == tokens(s@),
        s@.len() <= usize::MAX,
{
    let chars = chars_of(s);
    let n: usize = chars.len();
    let mut out: Vec<String> = Vec::new();
    let mut pos: usize = 0;
    proof {
        assert(chars@.skip(0) =~= chars@);
        assert(texts(out@) + tokens(chars@) =~= tokens(chars@));
    }
    while pos < n
        invariant
            pos <= n,
            n == chars.len(),
            tokens(chars@) == texts(out@) + tokens(chars@.skip(pos as int)),
        decreases n - pos,
    {
        let mut end: usize = pos;
        while end < n && (chars[end].is_alphanumeric() || chars[end] == '\'')
            invariant
                pos <= end <= n,
                n == chars.len(),
                forall|i: int| pos <= i < end ==> is_word_char(#[trigger] chars[i]),
            decreases n - end,
        {
            end = end + 1;
        }
        let ghost rest = chars@.skip(pos as int);
        let ghost before = texts(out@);
        proof {
            assert forall|i: int| 0 <= i < end - pos implies is_word_char(#[trigger] rest[i]) by {
                assert(rest[i] == chars[pos + i]);
            }
            if end < n {
                assert(rest[end - pos] == chars[end as int]);
            }
            lemma_run_length(rest, end - pos);
            assert(rest.take(end - pos) =~= chars@.subrange(pos as int, end as int));
            if end < n {
                assert(rest.skip(end - pos + 1) =~= chars@.skip(end + 1));
            }
        }
        let (a, b) = trim_bounds(&chars, pos, end, Margin::Quotes);
        if b - a >= 2 {
            let word = string_of(&chars, a, b);
            proof {
                lemma_texts_push(out@, word);
            }
            out.push(word);
        }
        let next: usize = if end < n {
            end + 1
        } else {
            n
        };
        proof {
            let word = trim(rest.take(end - pos), Margin::Quotes);
            let after = tokens(chars@.skip(next as int));
            if end >= n {
                assert(chars@.skip(n as int) =~= Seq::<char>::empty());
            }
            if word.len() >= 2 {
                assert(before + (seq![word] + after) =~= before.push(word) + after);
            }
        }
        pos = next;
    }
    proof {
        assert(chars@.skip(n as int) =~= Seq::<char>::empty());
        assert(texts(out@) + Seq::<Seq<char>>::empty() =~= texts(out@));
    }
    out
}

/// Cuts a text into tokens: lower-cases it, cuts it at every character that
/// is neither alphanumeric nor an apostrophe, strips apostrophes from the
/// two ends of each piece and keeps the pieces of two characters or more, in
/// the order of the text.
pub fn tokenize(text: &str) -> (out: Vec<String>)
    ensures
        texts(out@) == tokens(lowercase(text@)),
        forall|i: int| 0 <= i < out.len() ==> (#[trigger] out[i])@.len() >= 2,
        2 * out.len() <= lowercase(text@).len() <= usize::MAX,
{
    let lower = text.to_lowercase();
    let out = split_words(lower.as_str());
    proof {
        tokens_are_words(lower@);
        assert forall|i: int| 0 <= i < out.len() implies (#[trigger] out[i])@.len() >= 2 by {
            assert(texts(out@)[i] == out[i]@);
        }
    }
    out
}

/// The start value of the FNV-1a hash of 64 bits.
pub const FNV_OFFSET: u64 = 0xcbf2_9ce4_8422_2325;

/// The multiplier of the FNV-1a hash of 64 bits.
pub const FNV_PRIME: u64 = 0x0000_0100_0000_01b3;

/// The FNV-1a hash of a byte string: starting from the offset, each byte is
/// xor-ed into the hash, which is then multiplied by the prime, modulo 2^64.
pub open spec fn fnv1a(bytes: Seq<u8>) -> u64
    decreases bytes.len(),
{
    if bytes.len() == 0 {
        FNV_OFFSET
    } else {
        (fnv1a(bytes.drop_last()) ^ (bytes.last() as u64)).wrapping_mul(FNV_PRIME)
    }
}

/// Hashes the UTF-8 bytes of `s` by FNV-1a.
pub fn fxhash(s: &str) -> (hash: u64)
    ensures
        hash == fnv1a(encode_utf8(s@)),
{
    let bytes = s.as_bytes();
    let mut hash: u64 = FNV_OFFSET;
    let mut i: usize = 0;
    while i < bytes.len()
        invariant
            i <= bytes.len(),
            bytes@ == encode_utf8(s@),
            hash == fnv1a(bytes@.take(i as int)),
        decreases bytes.len() - i,
    {
        proof {
            assert(bytes@.take(i + 1).drop_last() =~= bytes@.take(i as int));
        }
        hash = (hash ^ (bytes[i] as u64)).wrapping_mul(FNV_PRIME);
        i = i + 1;
    }
    proof {
        assert(bytes@.take(i as int) =~= bytes@);
    }
    hash
}

/// The bucket of a token with hash `h` among `dim` buckets.
pub open spec fn bucket(h: u64, dim: usize) -> int {
    h as int % dim as int
}

/// The sign with which a token with hash `h` is counted: plus where the
/// lowest bit of the hash is clear, minus where it is set.
pub open spec fn sign(h: u64) -> int {
    if h % 2 == 0 {
        1
    } else {
        -1
    }
}

/// The signed counts of `words` in `dim` buckets: every word adds its sign
/// to its bucket.
pub open spec fn signed_counts(words: Seq<Seq<char>>, dim: usize) -> Seq<int>
    decreases words.len(),
{
    if words.len() == 0 {
        Seq::new(dim as nat, |i: int| 0int)
    } else {
        let before = signed_counts(words.drop_last(), dim);
        let h = fnv1a(encode_utf8(words.last()));
        if dim == 0 {
            before
        } else {
            before.update(bucket(h, dim), before[bucket(h, dim)] + sign(h))
        }
    }
}

/// The counts have one entry per bucket, and no entry is further from zero
/// than there are words.
pub proof fn counts_are_bounded(words: Seq<Seq<char>>, dim: usize)
    ensures
        signed_counts(words, dim).len() == dim,
        forall|i: int|
            0 <= i < dim ==> -words.len() <= (#[trigger] signed_counts(words, dim)[i])
                <= words.len(),
    decreases words.len(),
{
    if words.len() > 0 {
        counts_are_bounded(words.drop_last(), dim);
    }
}

/// Turns texts into vectors of a fixed dimension by the hashing trick.
#[derive(Clone, Copy, Debug, PartialEq, Eq)]
pub struct HasherEmbedder {
    dim: usize,
}

impl HasherEmbedder {
    /// The dimension of the vectors.
    pub closed spec fn spec_dim(&self) -> usize {
        self.dim
    }

    /// An embedder for vectors of dimension `dim`.
    pub fn new(dim: usize) -> (made: HasherEmbedder)
        ensures
            made.spec_dim() == dim,
    {
        HasherEmbedder { dim }
    }

    /// The dimension of the vectors.
    #[verifier::when_used_as_spec(spec_dim)]
    pub fn dim(&self) -> (dim: usize)
        ensures
            dim == self.spec_dim(),
    {
        self.dim
    }

    /// Counts tokens into buckets: every token adds `+1` or `-1`, by the
    /// lowest bit of its hash, to the bucket that its hash selects.
    pub fn count(&self, words: &Vec<String>) -> (counts: Vec<i64>)
        requires
            words.len() <= i64::MAX,
        ensures
            counts.len() == self.dim(),
            forall|i: int|
                0 <= i < counts.len() ==> (#[trigger] counts[i]) == signed_counts(
                    texts(words@),
                    self.dim(),
                )[i],
    {
        let dim: usize = self.dim;
        let mut counts: Vec<i64> = Vec::new();
        let mut i: usize = 0;
        while i < dim
            invariant
                i <= dim,
                counts.len() == i,
                forall|j: int| 0 <= j < i ==> (#[trigger] counts[j]) == 0,
            decreases dim - i,
        {
            counts.push(0);
            i = i + 1;
        }
        if dim == 0 {
            proof {
                counts_are_bounded(texts(words@), dim);
            }
            return counts;
        }
        let mut k: usize = 0;
        proof {
            assert(texts(words@).take(0) =~= Seq::<Seq<char>>::empty());
        }
        while k < words.len()
            invariant
                k <= words.len() <= i64::MAX,
                dim > 0,
                counts.len() == dim,
                forall|j: int|
                    0 <= j < dim ==> (#[trigger] counts[j]) == signed_counts(
                        texts(words@).take(k as int),
                        dim,
                    )[j],
            decreases words.len() - k,
        {
            let h: u64 = fxhash(words[k].as_str());
            let idx: usize = (h % (dim as u64)) as usize;
            let up: bool = h % 2 == 0;
            proof {
                let done = texts(words@).take(k as int);
                let next = texts(words@).take(k + 1);
                assert(next.drop_last() =~= done);
                assert(next.last() == words[k as int]@);
                counts_are_bounded(done, dim);
                assert(idx == bucket(h, dim));
            }
            let old: i64 = counts[idx];
            let new: i64 = if up {
                old + 1
            } else {
                old - 1
            };
            counts.set(idx, new);
            k = k + 1;
        }
        proof {
            assert(texts(words@).take(k as int) =~= texts(words@));
        }
        counts
    }

    /// The signed token counts of a text, one per dimension. Scaled to unit
    /// length, they are the vector of the text.
    pub fn embed_counts(&self, text: &str) -> (counts: Vec<i64>)
        ensures
            counts.len() == self.dim(),
            forall|i: int|
                0 <= i < counts.len() ==> (#[trigger] counts[i]) == signed_counts(
                    tokens(lowercase(text@)),
                    self.dim(),
                )[i],
    {
        let words = tokenize(text);
        self.count(&words)
    }
}

} // verus!
