//! Character-level helpers shared by the tokenizer and the chunkers.

use vstd::prelude::*;
use vstd::string::StringExecFns;
use vstd::utf8::{decode_utf8, encode_utf8, encode_utf8_decode_utf8, is_char_boundary};

verus! {

/// What `char::is_alphanumeric` answers for `c`.
pub uninterp spec fn alphanumeric(c: char) -> bool;

/// What `char::is_whitespace` answers for `c`.
pub uninterp spec fn whitespace(c: char) -> bool;

/// The characters of what `str::to_lowercase` returns for the text `s`.
pub uninterp spec fn lowercase(s: Seq<char>) -> Seq<char>;

/// `char::is_alphanumeric` depends on the character alone; its answer is
/// known here only by name.
pub assume_specification[ char::is_alphanumeric ](c: char) -> (yes: bool)
    ensures
        yes == alphanumeric(c),
;

/// `char::is_whitespace` depends on the character alone; its answer is known
/// here only by name.
pub assume_specification[ char::is_whitespace ](c: char) -> (yes: bool)
    ensures
        yes == whitespace(c),
;

/// `str::to_lowercase` returns a new string that depends on the characters
/// of the text alone; what it holds is known here only by name.
pub assume_specification[ str::to_lowercase ](s: &str) -> (lower: String)
    ensures
        lower@ == lowercase(s@),
;

/// `String::push` appends the character to the end of the string.
pub assume_specification[ String::push ](s: &mut String, c: char)
    ensures
        final(s)@ == old(s)@.push(c),
;

/// The characters of `s`, in order.
pub fn chars_of(s: &str) -> (out: Vec<char>)
    ensures
        out@ == s@,
{
    let mut out: Vec<char> = Vec::new();
    for c in it: s.chars()
        invariant
            it.seq() == s@,
            out@ =~= s@.take(it.index() as int),
    {
        out.push(c);
    }
    assert(s@.take(s@.len() as int) =~= s@);
    out
}

/// The string made of the characters of `chars` from `from` up to `to`.
pub fn string_of(chars: &Vec<char>, from: usize, to: usize) -> (out: String)
    requires
        from <= to <= chars.len(),
    ensures
        out@ == chars@.subrange(from as int, to as int),
{
    let mut out = String::new();
    let mut i: usize = from;
    while i < to
        invariant
            from <= i <= to <= chars.len(),
            out@ == chars@.subrange(from as int, i as int),
        decreases to - i,
    {
        out.push(chars[i]);
        proof {
            assert(chars@.subrange(from as int, i + 1) =~= chars@.subrange(
                from as int,
                i as int,
            ).push(chars[i as int]));
        }
        i = i + 1;
    }
    out
}

/// What is stripped from the two ends of a piece of text.
#[derive(Clone, Copy, Debug, PartialEq, Eq, Structural)]
pub enum Margin {
    /// Apostrophes.
    Quotes,
    /// Whitespace.
    Blanks,
}

/// The character `c` is stripped under `margin`.
pub open spec fn strippable(margin: Margin, c: char) -> bool {
    match margin {
        Margin::Quotes => c == '\'',
        Margin::Blanks => whitespace(c),
    }
}

/// `s` without its leading strippable characters.
pub open spec fn trim_start(s: Seq<char>, margin: Margin) -> Seq<char>
    decreases s.len(),
{
    if s.len() > 0 && strippable(margin, s[0]) {
        trim_start(s.drop_first(), margin)
    } else {
        s
    }
}

/// `s` without its trailing strippable characters.
pub open spec fn trim_end(s: Seq<char>, margin: Margin) -> Seq<char>
    decreases s.len(),
{
    if s.len() > 0 && strippable(margin, s.last()) {
        trim_end(s.drop_last(), margin)
    } else {
        s
    }
}

/// `s` without its leading and trailing strippable characters.
pub open spec fn trim(s: Seq<char>, margin: Margin) -> Seq<char> {
    trim_end(trim_start(s, margin), margin)
}

/// Skipping a strippable prefix of `s` is what `trim_start` does, once the
/// prefix ends at a character that stays, or at the end.
pub proof fn lemma_trim_start(s: Seq<char>, margin: Margin, a: int)
    requires
        0 <= a <= s.len(),
        forall|i: int| 0 <= i < a ==> strippable(margin, #[trigger] s[i]),
        a < s.len() ==> !strippable(margin, s[a]),
    ensures
        trim_start(s, margin) == s.skip(a),
    decreases a,
{
    if a == 0 {
        assert(s.skip(0) =~= s);
    } else {
        let rest = s.drop_first();
        assert forall|i: int| 0 <= i < a - 1 implies strippable(margin, #[trigger] rest[i]) by {
            assert(rest[i] == s[i + 1]);
        }
        lemma_trim_start(rest, margin, a - 1);
        assert(rest.skip(a - 1) =~= s.skip(a));
    }
}

/// Dropping a strippable suffix of `s` is what `trim_end` does, once the
/// suffix starts after a character that stays, or at the start.
pub proof fn lemma_trim_end(s: Seq<char>, margin: Margin, b: int)
    requires
        0 <= b <= s.len(),
        forall|i: int| b <= i < s.len() ==> strippable(margin, #[trigger] s[i]),
        b > 0 ==> !strippable(margin, s[b - 1]),
    ensures
        trim_end(s, margin) == s.take(b),
    decreases s.len() - b,
{
    if b == s.len() {
        assert(s.take(b) =~= s);
    } else {
        let rest = s.drop_last();
        assert forall|i: int| b <= i < rest.len() implies strippable(margin, #[trigger] rest[i]) by {
            assert(rest[i] == s[i]);
        }
        lemma_trim_end(rest, margin, b);
        assert(rest.take(b) =~= s.take(b));
    }
}

/// A trimmed text is empty, or starts and ends with characters that stay;
/// and it is no longer than the text.
pub proof fn lemma_trim_ends_stay(s: Seq<char>, margin: Margin)
    ensures
        trim(s, margin).len() <= s.len(),
        trim(s, margin).len() > 0 ==> !strippable(margin, trim(s, margin)[0]) && !strippable(
            margin,
            trim(s, margin).last(),
        ),
{
    lemma_trim_start_shape(s, margin);
    let t = trim_start(s, margin);
    lemma_trim_end_shape(t, margin);
}

proof fn lemma_trim_start_shape(s: Seq<char>, margin: Margin)
    ensures
        trim_start(s, margin).len() <= s.len(),
        trim_start(s, margin).len() > 0 ==> !strippable(margin, trim_start(s, margin)[0]),
    decreases s.len(),
{
    if s.len() > 0 && strippable(margin, s[0]) {
        lemma_trim_start_shape(s.drop_first(), margin);
    }
}

proof fn lemma_trim_end_shape(s: Seq<char>, margin: Margin)
    ensures
        trim_end(s, margin).len() <= s.len(),
        trim_end(s, margin).len() > 0 ==> !strippable(margin, trim_end(s, margin).last()),
        trim_end(s, margin).len() > 0 ==> trim_end(s, margin)[0] == s[0],
    decreases s.len(),
{
    if s.len() > 0 && strippable(margin, s.last()) {
        lemma_trim_end_shape(s.drop_last(), margin);
    }
}

/// Decides `strippable`.
pub fn is_strippable(margin: Margin, c: char) -> (yes: bool)
    ensures
        yes == strippable(margin, c),
{
    match margin {
        Margin::Quotes => c == '\'',
        Margin::Blanks => c.is_whitespace(),
    }
}

/// Finds what is left of the characters from `from` up to `to` after
/// trimming: the bounds of the part that stays.
pub fn trim_bounds(chars: &Vec<char>, from: usize, to: usize, margin: Margin) -> (kept: (
    usize,
    usize,
))
    requires
        from <= to <= chars.len(),
    ensures
        from <= kept.0 <= kept.1 <= to,
        chars@.subrange(kept.0 as int, kept.1 as int) == trim(
            chars@.subrange(from as int, to as int),
            margin,
        ),
{
    let ghost piece = chars@.subrange(from as int, to as int);
    let mut a: usize = from;
    while a < to && is_strippable(margin, chars[a])
        invariant
            from <= a <= to <= chars.len(),
            forall|i: int| from <= i < a ==> strippable(margin, #[trigger] chars[i]),
        decreases to - a,
    {
        a = a + 1;
    }
    let mut b: usize = to;
    while b > a && is_strippable(margin, chars[b - 1])
        invariant
            a <= b <= to <= chars.len(),
            forall|i: int| b <= i < to ==> strippable(margin, #[trigger] chars[i]),
        decreases b - a,
    {
        b = b - 1;
    }
    proof {
        assert forall|i: int| 0 <= i < a - from implies strippable(margin, #[trigger] piece[i]) by {
            assert(piece[i] == chars[from + i]);
        }
        lemma_trim_start(piece, margin, a - from);
        let tail = piece.skip(a - from);
        assert(tail =~= chars@.subrange(a as int, to as int));
        assert forall|i: int| b - a <= i < tail.len() implies strippable(
            margin,
            #[trigger] tail[i],
        ) by {
            assert(tail[i] == chars[a + i]);
        }
        if b > a {
            assert(tail[b - a - 1] == chars[b - 1]);
        }
        lemma_trim_end(tail, margin, b - a);
        assert(tail.take(b - a) =~= chars@.subrange(a as int, b as int));
    }
    (a, b)
}

/// The texts of a list of strings.
pub open spec fn texts(list: Seq<String>) -> Seq<Seq<char>> {
    Seq::new(list.len(), |i: int| list[i]@)
}

/// The texts of a list that grew by one string.
pub proof fn lemma_texts_push(list: Seq<String>, s: String)
    ensures
        texts(list.push(s)) == texts(list).push(s@),
{
    assert(texts(list.push(s)) =~= texts(list).push(s@));
}

/// The parts written one after the other, with `sep` between neighbours.
pub open spec fn join(parts: Seq<Seq<char>>, sep: Seq<char>) -> Seq<char>
    decreases parts.len(),
{
    if parts.len() == 0 {
        Seq::empty()
    } else if parts.len() == 1 {
        parts[0]
    } else {
        join(parts.drop_last(), sep) + sep + parts.last()
    }
}

/// Joins the strings of `list` from `from` up to `to` with `sep` between
/// neighbours.
pub fn join_range(list: &[String], from: usize, to: usize, sep: &str) -> (out: String)
    requires
        from <= to <= list.len(),
    ensures
        out@ == join(texts(list@).subrange(from as int, to as int), sep@),
{
    let mut out = String::new();
    let mut i: usize = from;
    while i < to
        invariant
            from <= i <= to <= list.len(),
            out@ == join(texts(list@).subrange(from as int, i as int), sep@),
        decreases to - i,
    {
        let ghost before = texts(list@).subrange(from as int, i as int);
        let ghost after = texts(list@).subrange(from as int, i + 1);
        proof {
            assert(after.drop_last() =~= before);
            assert(after.last() == list[i as int]@);
        }
        if i > from {
            out.append(sep);
        }
        out.append(list[i].as_str());
        proof {
            if i == from {
                assert(before.len() == 0);
                assert(out@ =~= list[i as int]@);
            }
        }
        i = i + 1;
    }
    out
}

/// The characters of `text` between two byte offsets of its UTF-8 form.
pub open spec fn piece(text: Seq<char>, from: int, to: int) -> Seq<char> {
    decode_utf8(encode_utf8(text).subrange(from, to))
}

/// The mark that stands for what a preview leaves out.
pub const ELLIPSIS: &'static str = "\u{2026}";

/// A preview of a text: the text itself where its UTF-8 form has at most
/// `n` bytes, and else the part before byte `n`, followed by an ellipsis.
/// The cut has to fall between two characters.
pub fn preview(s: &str, n: usize) -> (out: String)
    requires
        n < encode_utf8(s@).len() ==> is_char_boundary(encode_utf8(s@), n as int),
    ensures
        out@ == if encode_utf8(s@).len() <= n {
            s@
        } else {
            piece(s@, 0, n as int) + ELLIPSIS@
        },
{
    if s.as_bytes().len() <= n {
        String::from_str(s)
    } else {
        let (head, _) = s.split_at(n);
        proof {
            encode_utf8_decode_utf8(head@);
        }
        let mut out = String::from_str(head);
        out.append(ELLIPSIS);
        out
    }
}

} // verus!
