//! Cutting a text into chunks: by paragraphs, by sentences, or by windows of
//! tokens that overlap.

use vstd::prelude::*;
use vstd::string::StringSliceAdditionalSpecFns;
use vstd::utf8::{
    encode_utf8, encode_utf8_decode_utf8, encode_utf8_valid_utf8, is_char_boundary,
    is_char_boundary_iff_not_is_continuation_byte, is_char_boundary_start_end_of_seq,
    valid_utf8_split,
};
use crate::embedding::{tokenize, tokens};
use crate::text::{
    chars_of, join, join_range, lemma_texts_push, lowercase, piece, string_of, texts, trim,
    trim_bounds, Margin,
};

verus! {

/// A blank line, that is two line feeds in a row, starts at position `i`.
pub open spec fn blank_line_at(s: Seq<char>, i: int) -> bool {
    0 <= i && i + 1 < s.len() && s[i] == '\n' && s[i + 1] == '\n'
}

/// The position of the first blank line of `s`; the length of `s` where it
/// has none.
pub open spec fn first_break(s: Seq<char>) -> int
    decreases s.len(),
{
    if s.len() < 2 {
        s.len() as int
    } else if s[0] == '\n' && s[1] == '\n' {
        0
    } else {
        1 + first_break(s.drop_first())
    }
}

/// The blocks of `s`: the text is cut at each blank line, from the left;
/// each piece is trimmed of whitespace, and the pieces that are not empty
/// are kept.
pub open spec fn blocks(s: Seq<char>) -> Seq<Seq<char>>
    decreases s.len(),
{
    let cut = first_break(s);
    let block = trim(s.take(cut), Margin::Blanks);
    let rest = if 0 <= cut && cut + 2 <= s.len() {
        blocks(s.skip(cut + 2))
    } else {
        Seq::empty()
    };
    if block.len() > 0 {
        seq![block] + rest
    } else {
        rest
    }
}

/// The paragraphs of `s`: its blocks, or, where it has none, the trimmed
/// text alone.
pub open spec fn paragraphs(s: Seq<char>) -> Seq<Seq<char>> {
    if blocks(s).len() == 0 {
        seq![trim(s, Margin::Blanks)]
    } else {
        blocks(s)
    }
}

/// A position before which no blank line starts, and at which one starts
/// unless it is the end, is the first break.
pub proof fn lemma_first_break(s: Seq<char>, cut: int)
    requires
        0 <= cut <= s.len(),
        forall|i: int| 0 <= i < cut ==> !#[trigger] blank_line_at(s, i),
        cut < s.len() ==> blank_line_at(s, cut),
    ensures
        first_break(s) == cut,
    decreases s.len(),
{
    if s.len() < 2 {
    } else if cut == 0 {
    } else {
        let rest = s.drop_first();
        assert(!blank_line_at(s, 0));
        assert forall|i: int| 0 <= i < cut - 1 implies !#[trigger] blank_line_at(rest, i) by {
            assert(!blank_line_at(s, i + 1));
            if i + 1 < rest.len() {
                assert(rest[i] == s[i + 1] && rest[i + 1] == s[i + 1 + 1]);
            }
        }
        if cut < s.len() {
            assert(rest[cut - 1] == s[cut] && rest[cut] == s[cut + 1]);
        }
        lemma_first_break(rest, cut - 1);
    }
}

/// Cuts a text into paragraphs at blank lines. Each paragraph is trimmed, and
/// empty ones are left out; a text without any paragraph gives one entry,
/// the trimmed text itself.
pub fn split_paragraphs(input: &str) -> (paras: Vec<String>)
    ensures
        texts(paras@) == paragraphs(input@),
        paras.len() >= 1,
{
    let chars = chars_of(input);
    let n: usize = chars.len();
    let mut paras: Vec<String> = Vec::new();
    let mut pos: usize = 0;
    let mut open: bool = true;
    proof {
        assert(chars@.skip(0) =~= chars@);
        assert(texts(paras@) + blocks(chars@) =~= blocks(chars@));
    }
    while open
        invariant
            pos <= n,
            n == chars.len(),
            open ==> blocks(chars@) == texts(paras@) + blocks(chars@.skip(pos as int)),
            !open ==> blocks(chars@) == texts(paras@),
        decreases
                n - pos + if open {
                    1int
                } else {
                    0int
                },
    {
        let mut cut: usize = pos;
        while cut < n && !(cut + 1 < n && chars[cut] == '\n' && chars[cut + 1] == '\n')
            invariant
                pos <= cut <= n,
                n == chars.len(),
                forall|i: int| pos <= i < cut ==> !#[trigger] blank_line_at(chars@, i),
            decreases n - cut,
        {
            cut = cut + 1;
        }
        let ghost rest = chars@.skip(pos as int);
        let ghost before = texts(paras@);
        proof {
            assert forall|i: int| 0 <= i < cut - pos implies !#[trigger] blank_line_at(rest, i) by {
                assert(!blank_line_at(chars@, pos + i));
                if i + 1 < rest.len() {
                    assert(rest[i] == chars[pos + i] && rest[i + 1] == chars[pos + i + 1]);
                }
            }
            if cut < n {
                assert(rest[cut - pos] == chars[cut as int]);
                assert(rest[cut - pos + 1] == chars[cut + 1]);
            }
            lemma_first_break(rest, cut - pos);
            assert(rest.take(cut - pos) =~= chars@.subrange(pos as int, cut as int));
            if cut < n {
                assert(rest.skip(cut - pos + 2) =~= chars@.skip(cut + 2));
            }
        }
        let (a, b) = trim_bounds(&chars, pos, cut, Margin::Blanks);
        if b > a {
            let block = string_of(&chars, a, b);
            proof {
                lemma_texts_push(paras@, block);
            }
            paras.push(block);
        }
        proof {
            let block = trim(rest.take(cut - pos), Margin::Blanks);
            if cut < n {
                let after = blocks(chars@.skip(cut + 2));
                if block.len() > 0 {
                    assert(before + (seq![block] + after) =~= before.push(block) + after);
                }
            } else {
                if block.len() > 0 {
                    assert(before + (seq![block] + Seq::<Seq<char>>::empty()) =~= before.push(
                        block,
                    ));
                } else {
                    assert(before + Seq::<Seq<char>>::empty() =~= before);
                }
            }
        }
        if cut < n {
            pos = cut + 2;
        } else {
            open = false;
        }
    }
    if paras.len() == 0 {
        let (a, b) = trim_bounds(&chars, 0, n, Margin::Blanks);
        let whole = string_of(&chars, a, b);
        proof {
            assert(chars@.subrange(0, n as int) =~= chars@);
            lemma_texts_push(paras@, whole);
            assert(texts(paras@) =~= Seq::<Seq<char>>::empty());
        }
        paras.push(whole);
    }
    paras
}

/// The smaller of two numbers.
pub open spec fn least(a: int, b: int) -> int {
    if a <= b {
        a
    } else {
        b
    }
}

/// The parts in groups of `window`, one after the other, each group joined
/// with single spaces; the last group holds what is left. No groups for a
/// window of zero.
pub open spec fn windows(parts: Seq<Seq<char>>, window: int) -> Seq<Seq<char>>
    decreases parts.len(),
{
    if window <= 0 || parts.len() == 0 {
        Seq::empty()
    } else {
        let end = least(window, parts.len() as int);
        seq![join(parts.take(end), " "@)] + windows(parts.skip(end), window)
    }
}

/// Groups sentences into chunks of `window` sentences each, joined with
/// single spaces. The last chunk holds what is left; a window of zero gives
/// no chunks.
pub fn chunk_by_sentences(sentences: &[String], window: usize) -> (chunks: Vec<String>)
    ensures
        texts(chunks@) == windows(texts(sentences@), window as int),
{
    let mut chunks: Vec<String> = Vec::new();
    if window == 0 {
        proof {
            assert(texts(chunks@) =~= Seq::<Seq<char>>::empty());
        }
        return chunks;
    }
    let n: usize = sentences.len();
    let ghost all = texts(sentences@);
    let mut i: usize = 0;
    proof {
        assert(all.skip(0) =~= all);
        assert(texts(chunks@) + windows(all, window as int) =~= windows(all, window as int));
    }
    while i < n
        invariant
            i <= n,
            n == sentences.len(),
            window > 0,
            all == texts(sentences@),
            windows(all, window as int) == texts(chunks@) + windows(
                all.skip(i as int),
                window as int,
            ),
        decreases n - i,
    {
        let end: usize = if window < n - i {
            i + window
        } else {
            n
        };
        let chunk = join_range(sentences, i, end, " ");
        proof {
            let rest = all.skip(i as int);
            let before = texts(chunks@);
            assert(rest.take(end - i) =~= all.subrange(i as int, end as int));
            assert(rest.skip(end - i) =~= all.skip(end as int));
            lemma_texts_push(chunks@, chunk);
            assert(before + (seq![chunk@] + windows(all.skip(end as int), window as int))
                =~= before.push(chunk@) + windows(all.skip(end as int), window as int));
        }
        chunks.push(chunk);
        i = end;
    }
    proof {
        assert(all.skip(n as int) =~= Seq::<Seq<char>>::empty());
        assert(texts(chunks@) + Seq::<Seq<char>>::empty() =~= texts(chunks@));
    }
    chunks
}

/// The distance between the starts of two neighbouring windows of `size`
/// tokens that share `overlap` tokens: what a window holds beyond the
/// shared part, and one where the shared part would leave nothing.
pub open spec fn stride(size: int, overlap: int) -> int {
    if size > overlap {
        size - overlap
    } else {
        1
    }
}

/// The number of windows of `size` tokens, `step` apart, over `n` tokens:
/// none where there is no token or no room in a window; else as many as it
/// takes for a window to reach the last token.
pub open spec fn window_count(n: int, size: int, step: int) -> int
    decreases
            if n > 0 {
                n
            } else {
                0
            },
{
    if n <= 0 || size <= 0 || step <= 0 {
        0
    } else if n <= size {
        1
    } else {
        1 + window_count(n - step, size, step)
    }
}

/// The first token of window `c`.
pub open spec fn window_start(c: int, step: int) -> int {
    c * step
}

/// The position after the last token of window `c` over `n` tokens.
pub open spec fn window_end(c: int, size: int, step: int, n: int) -> int {
    least(c * step + size, n)
}

/// `chunks` holds the windows of `size` tokens, `step` apart, over `parts`,
/// each joined with single spaces.
pub open spec fn is_windowed(
    parts: Seq<Seq<char>>,
    size: int,
    step: int,
    chunks: Seq<Seq<char>>,
) -> bool {
    &&& chunks.len() == window_count(parts.len() as int, size, step)
    &&& forall|c: int|
        0 <= c < chunks.len() ==> #[trigger] chunks[c] == join(
            parts.subrange(
                window_start(c, step),
                window_end(c, size, step, parts.len() as int),
            ),
            " "@,
        )
}

/// There is a window as soon as there is a token and room for one.
pub proof fn lemma_window_count_positive(n: int, size: int, step: int)
    ensures
        window_count(n, size, step) >= 0,
        n > 0 && size > 0 && step > 0 ==> window_count(n, size, step) >= 1,
    decreases
            if n > 0 {
                n
            } else {
                0
            },
{
    if n <= 0 || size <= 0 || step <= 0 {
    } else if n <= size {
    } else {
        lemma_window_count_positive(n - step, size, step);
    }
}

/// Every window but the last is full, the last one ends with the last token,
/// and each window starts within the one before it.
pub proof fn lemma_window_bounds(n: int, size: int, step: int, c: int)
    requires
        0 < step <= size,
        0 <= c < window_count(n, size, step),
    ensures
        0 <= window_start(c, step) < window_end(c, size, step, n) <= n,
        c + 1 < window_count(n, size, step) ==> window_end(c, size, step, n) == c * step + size
            && window_start(c + 1, step) <= window_end(c, size, step, n) < n,
        c + 1 == window_count(n, size, step) ==> window_end(c, size, step, n) == n,
    decreases n,
{
    if n <= size {
        assert(c == 0);
        assert(0 * step == 0) by (nonlinear_arith);
    } else {
        if c == 0 {
            assert(0 * step == 0) by (nonlinear_arith);
            assert(1 * step == step) by (nonlinear_arith);
            lemma_window_count_positive(n - step, size, step);
        } else {
            lemma_window_bounds(n - step, size, step, c - 1);
            assert(c * step == (c - 1) * step + step) by (nonlinear_arith);
            assert((c + 1) * step == c * step + step) by (nonlinear_arith);
        }
    }
}

/// Neighbouring chunks share their tokens as asked. Where a chunk is to hold
/// more tokens than are shared, every chunk that has a successor is full, and
/// its last `overlap` tokens are the first `overlap` tokens of its successor.
pub proof fn chunks_share_tokens(parts: Seq<Seq<char>>, size: int, overlap: int, c: int)
    requires
        0 <= overlap < size,
        0 <= c,
        c + 1 < window_count(parts.len() as int, size, stride(size, overlap)),
    ensures
        ({
            let step = stride(size, overlap);
            let n = parts.len() as int;
            let this = parts.subrange(window_start(c, step), window_end(c, size, step, n));
            let next = parts.subrange(
                window_start(c + 1, step),
                window_end(c + 1, size, step, n),
            );
            &&& this.len() == size
            &&& next.len() >= overlap
            &&& this.skip(size - overlap) == next.take(overlap)
        }),
{
    let step = stride(size, overlap);
    let n = parts.len() as int;
    lemma_window_bounds(n, size, step, c);
    lemma_window_bounds(n, size, step, c + 1);
    assert((c + 1) * step == c * step + step) by (nonlinear_arith);
    let this = parts.subrange(window_start(c, step), window_end(c, size, step, n));
    let next = parts.subrange(window_start(c + 1, step), window_end(c + 1, size, step, n));
    assert(this.skip(size - overlap) =~= next.take(overlap));
}

/// Where a chunk is to hold no more tokens than are shared, each chunk
/// starts one token after the chunk before it.
pub proof fn chunks_step_by_one(size: int, overlap: int, c: int)
    requires
        0 < size <= overlap,
        0 <= c,
    ensures
        window_start(c + 1, stride(size, overlap)) == window_start(c, stride(size, overlap)) + 1,
{
    assert((c + 1) * 1 == c * 1 + 1) by (nonlinear_arith);
}

/// Cuts a text into chunks of `tokens_per_chunk` tokens, joined with single
/// spaces, where each chunk starts `tokens_per_chunk - overlap` tokens after
/// the one before it, and one token after it where that is not positive. The
/// last chunk is the first that reaches the last token. No chunks for a
/// text without tokens or for chunks of no tokens.
pub fn chunk_by_token_overlap(input: &str, tokens_per_chunk: usize, overlap: usize) -> (chunks:
    Vec<String>)
    ensures
        is_windowed(
            tokens(lowercase(input@)),
            tokens_per_chunk as int,
            stride(tokens_per_chunk as int, overlap as int),
            texts(chunks@),
        ),
{
    let words = tokenize(input);
    window_tokens(&words, tokens_per_chunk, overlap)
}

/// Cuts a list of tokens into overlapping windows, as `chunk_by_token_overlap`
/// does with the tokens of a text.
pub fn window_tokens(words: &Vec<String>, tokens_per_chunk: usize, overlap: usize) -> (chunks: Vec<
    String,
>)
    ensures
        is_windowed(
            texts(words@),
            tokens_per_chunk as int,
            stride(tokens_per_chunk as int, overlap as int),
            texts(chunks@),
        ),
{
    let mut chunks: Vec<String> = Vec::new();
    let n: usize = words.len();
    let ghost parts = texts(words@);
    let ghost size = tokens_per_chunk as int;
    let ghost step_ = stride(tokens_per_chunk as int, overlap as int);
    if tokens_per_chunk == 0 || n == 0 {
        return chunks;
    }
    let step: usize = if tokens_per_chunk > overlap {
        tokens_per_chunk - overlap
    } else {
        1
    };
    let mut i: usize = 0;
    let mut open: bool = true;
    let ghost mut c: int = 0;
    proof {
        assert(0 * step_ == 0) by (nonlinear_arith);
    }
    while open
        invariant
            n == words.len(),
            n > 0,
            parts == texts(words@),
            size == tokens_per_chunk,
            step_ == step,
            0 < step <= tokens_per_chunk,
            c == chunks.len(),
            open ==> i == c * step_,
            open ==> i < n,
            open ==> window_count(n as int, size, step_) == c + window_count(n - i, size, step_),
            !open ==> window_count(n as int, size, step_) == c,
            forall|d: int|
                0 <= d < c ==> #[trigger] chunks[d]@ == join(
                    parts.subrange(window_start(d, step_), window_end(d, size, step_, n as int)),
                    " "@,
                ),
        decreases
                n - i + if open {
                    1int
                } else {
                    0int
                },
    {
        let end: usize = if tokens_per_chunk < n - i {
            i + tokens_per_chunk
        } else {
            n
        };
        let chunk = join_range(words.as_slice(), i, end, " ");
        chunks.push(chunk);
        proof {
            assert((c + 1) * step_ == c * step_ + step_) by (nonlinear_arith);
        }
        if end == n {
            open = false;
        } else {
            i = i + step;
        }
        proof {
            c = c + 1;
        }
    }
    proof {
        assert forall|d: int| 0 <= d < texts(chunks@).len() implies #[trigger] texts(chunks@)[d]
            == join(
            parts.subrange(window_start(d, step_), window_end(d, size, step_, parts.len() as int)),
            " "@,
        ) by {
            assert(texts(chunks@)[d] == chunks[d]@);
        }
    }
    chunks
}

/// The pattern of a sentence with what follows it: as few characters as
/// possible up to a full stop, an exclamation mark or a question mark, and
/// then whitespace. Its first group is the sentence without that whitespace.
pub const SENTENCE_PATTERN: &'static str = r"(?s)(.*?[\.\!\?])\s+";

/// What the regular expression `pattern` finds in `text`: for each match of
/// the pattern, from the left and without overlap, the byte offsets at which
/// its first group starts and ends; a match in which the first group takes
/// no part gives no entry. `None` where the pattern is not a regular
/// expression.
pub uninterp spec fn group_spans(pattern: Seq<char>, text: Seq<char>) -> Option<
    Seq<(usize, usize)>,
>;

/// Searches `text` with the regular expression `pattern`: compiles it with
/// `regex::Regex::new`, walks the matches with `Regex::captures_iter` and
/// takes from each the offsets of its first group, by `Captures::get`,
/// `Match::start` and `Match::end`. The outcome depends on the two texts
/// alone and is known here only by name; that the offsets fit the text is
/// not taken on trust but tested by the caller.
#[verifier::external_body]
fn find_group_spans(pattern: &str, text: &str) -> (found: Option<Vec<(usize, usize)>>)
    ensures
        found is Some <==> group_spans(pattern@, text@) is Some,
        found matches Some(spans) ==> spans@ == group_spans(pattern@, text@)->0,
{
    match regex::Regex::new(pattern) {
        Ok(re) => Some(
            re.captures_iter(text).filter_map(|c| c.get(1)).map(|m| (m.start(), m.end())).collect(),
        ),
        Err(_) => None,
    }
}

/// Every span lies within the UTF-8 form of `text`, starts no later than it
/// ends, and starts and ends between characters.
pub open spec fn spans_fit(text: Seq<char>, spans: Seq<(usize, usize)>) -> bool {
    forall|k: int|
        0 <= k < spans.len() ==> {
            &&& (#[trigger] spans[k]).0 <= spans[k].1 <= encode_utf8(text).len()
            &&& is_char_boundary(encode_utf8(text), spans[k].0 as int)
            &&& is_char_boundary(encode_utf8(text), spans[k].1 as int)
        }
}

/// Where the text after the last sentence starts: at the end of the last
/// span, and at the start of the text where there is no span.
pub open spec fn tail_start(spans: Seq<(usize, usize)>) -> int {
    if spans.len() == 0 {
        0
    } else {
        spans.last().1 as int
    }
}

/// The sentences of `text` that the spans mark: the piece of each span,
/// trimmed; and after them what follows the last span, trimmed, unless
/// nothing is left of it.
pub open spec fn sentences_at(text: Seq<char>, spans: Seq<(usize, usize)>) -> Seq<Seq<char>> {
    let marked = Seq::new(
        spans.len(),
        |k: int| trim(piece(text, spans[k].0 as int, spans[k].1 as int), Margin::Blanks),
    );
    let tail = trim(
        piece(text, tail_start(spans), encode_utf8(text).len() as int),
        Margin::Blanks,
    );
    if tail.len() > 0 {
        marked.push(tail)
    } else {
        marked
    }
}

/// The spans to go by: the spans found, where the search gave spans that
/// fit the text; no spans otherwise.
pub open spec fn usable_spans(text: Seq<char>, found: Option<Seq<(usize, usize)>>) -> Seq<
    (usize, usize),
> {
    match found {
        Some(spans) => if spans_fit(text, spans) {
            spans
        } else {
            Seq::empty()
        },
        None => Seq::empty(),
    }
}

/// The part of `input` between two byte offsets, trimmed of whitespace.
fn trimmed_piece(input: &str, from: usize, to: usize) -> (out: String)
    requires
        from <= to <= encode_utf8(input@).len(),
        is_char_boundary(encode_utf8(input@), from as int),
        is_char_boundary(encode_utf8(input@), to as int),
    ensures
        out@ == trim(piece(input@, from as int, to as int), Margin::Blanks),
{
    let ghost bytes = encode_utf8(input@);
    proof {
        encode_utf8_valid_utf8(input@);
        valid_utf8_split(bytes, to as int);
    }
    let (head, _) = input.split_at(to);
    proof {
        let head_bytes = bytes.subrange(0, to as int);
        assert(head.spec_bytes() =~= head_bytes);
        if from < to {
            is_char_boundary_iff_not_is_continuation_byte(bytes, from as int);
            is_char_boundary_iff_not_is_continuation_byte(head_bytes, from as int);
            assert(head_bytes[from as int] == bytes[from as int]);
        } else {
            is_char_boundary_start_end_of_seq(head_bytes);
        }
    }
    let (_, mid) = head.split_at(from);
    proof {
        assert(mid.spec_bytes() =~= bytes.subrange(from as int, to as int));
        encode_utf8_decode_utf8(mid@);
    }
    let chars = chars_of(mid);
    let (a, b) = trim_bounds(&chars, 0, chars.len(), Margin::Blanks);
    proof {
        assert(chars@.subrange(0, chars.len() as int) =~= chars@);
    }
    string_of(&chars, a, b)
}

/// Tells whether the spans fit the text.
pub fn check_spans(input: &str, spans: &Vec<(usize, usize)>) -> (fit: bool)
    ensures
        fit == spans_fit(input@, spans@),
{
    let total: usize = input.as_bytes().len();
    let mut k: usize = 0;
    while k < spans.len()
        invariant
            k <= spans.len(),
            total == encode_utf8(input@).len(),
            forall|j: int|
                0 <= j < k ==> {
                    &&& (#[trigger] spans[j]).0 <= spans[j].1 <= encode_utf8(input@).len()
                    &&& is_char_boundary(encode_utf8(input@), spans[j].0 as int)
                    &&& is_char_boundary(encode_utf8(input@), spans[j].1 as int)
                },
        decreases spans.len() - k,
    {
        let from: usize = spans[k].0;
        let to: usize = spans[k].1;
        if !(from <= to && to <= total && input.is_char_boundary(from)
            && input.is_char_boundary(to)) {
            proof {
                assert(spans@[k as int] == (from, to));
            }
            return false;
        }
        k = k + 1;
    }
    true
}

/// Cuts a text into sentences at the given spans: one sentence for each
/// span, trimmed, and one for what follows the last span, unless that is
/// blank.
pub fn cut_sentences(input: &str, spans: &Vec<(usize, usize)>) -> (out: Vec<String>)
    requires
        spans_fit(input@, spans@),
    ensures
        texts(out@) == sentences_at(input@, spans@),
{
    let mut out: Vec<String> = Vec::new();
    let mut last: usize = 0;
    let mut k: usize = 0;
    proof {
        encode_utf8_valid_utf8(input@);
        is_char_boundary_start_end_of_seq(encode_utf8(input@));
    }
    while k < spans.len()
        invariant
            k <= spans.len(),
            spans_fit(input@, spans@),
            out.len() == k,
            last == tail_start(spans@.take(k as int)),
            last <= encode_utf8(input@).len(),
            is_char_boundary(encode_utf8(input@), last as int),
            is_char_boundary(encode_utf8(input@), encode_utf8(input@).len() as int),
            forall|j: int|
                0 <= j < k ==> (#[trigger] out[j])@ == trim(
                    piece(input@, spans[j].0 as int, spans[j].1 as int),
                    Margin::Blanks,
                ),
        decreases spans.len() - k,
    {
        let from: usize = spans[k].0;
        let to: usize = spans[k].1;
        let sentence = trimmed_piece(input, from, to);
        out.push(sentence);
        last = to;
        proof {
            assert(spans@.take(k + 1).last() == spans[k as int]);
        }
        k = k + 1;
    }
    proof {
        assert(spans@.take(k as int) =~= spans@);
        if spans.len() > 0 {
            assert(spans@.last() == spans[spans.len() - 1]);
        }
    }
    let ghost marked = texts(out@);
    proof {
        let want = Seq::new(
            spans@.len(),
            |k: int| trim(piece(input@, spans[k].0 as int, spans[k].1 as int), Margin::Blanks),
        );
        assert forall|j: int| 0 <= j < marked.len() implies marked[j] == want[j] by {
            assert(marked[j] == out[j]@);
        }
        assert(marked =~= want);
    }
    let tail = trimmed_piece(input, last, input.as_bytes().len());
    if tail.as_str().unicode_len() > 0 {
        proof {
            lemma_texts_push(out@, tail);
        }
        out.push(tail);
    }
    out
}

/// Cuts a text into sentences. A sentence ends with a full stop, an
/// exclamation mark or a question mark that whitespace follows; what comes
/// after the last such end is a sentence too, unless it is blank. Every
/// sentence is trimmed.
pub fn split_sentences(input: &str) -> (out: Vec<String>)
    ensures
        texts(out@) == sentences_at(
            input@,
            usable_spans(input@, group_spans(SENTENCE_PATTERN@, input@)),
        ),
{
    let spans: Vec<(usize, usize)> = match find_group_spans(SENTENCE_PATTERN, input) {
        Some(found) => if check_spans(input, &found) {
            found
        } else {
            Vec::new()
        },
        None => Vec::new(),
    };
    cut_sentences(input, &spans)
}

/// Chunks for a text of any kind: its paragraphs where there are five or
/// more of them; else its sentences in groups of five, or of eight where
/// there are more than fifty sentences.
pub fn chunk_text(input: &str) -> (chunks: Vec<String>)
    ensures
        texts(chunks@) == if paragraphs(input@).len() >= 5 {
            paragraphs(input@)
        } else {
            let sentences = sentences_at(
                input@,
                usable_spans(input@, group_spans(SENTENCE_PATTERN@, input@)),
            );
            windows(
                sentences,
                if sentences.len() > 50 {
                    8
                } else {
                    5
                },
            )
        },
{
    let paras = split_paragraphs(input);
    if paras.len() >= 5 {
        return paras;
    }
    let sents = split_sentences(input);
    let window: usize = if sents.len() > 50 {
        8
    } else {
        5
    };
    chunk_by_sentences(sents.as_slice(), window)
}

} // verus!
