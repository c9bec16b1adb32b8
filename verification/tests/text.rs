use umap_core::chunk::{
    check_spans, chunk_by_sentences, chunk_by_token_overlap, chunk_text, cut_sentences,
    split_paragraphs, split_sentences, window_tokens,
};
use umap_core::embedding::{fxhash, split_words, tokenize, HasherEmbedder};
use umap_core::text::{chars_of, is_strippable, join_range, string_of, trim_bounds, Margin};

fn strings(v: &[&str]) -> Vec<String> {
    v.iter().map(|s| s.to_string()).collect()
}

#[test]
fn tokenize_example() {
    assert_eq!(tokenize("Hello, world's 7!"), strings(&["hello", "world's"]));
}

#[test]
fn tokenize_drops_short_and_empty_tokens_and_keeps_order() {
    assert_eq!(tokenize(""), Vec::<String>::new());
    assert_eq!(tokenize("a b c"), Vec::<String>::new());
    assert_eq!(tokenize("  ,,;; "), Vec::<String>::new());
    assert_eq!(tokenize("ab a cd"), strings(&["ab", "cd"]));
    assert_eq!(tokenize("The the THE"), strings(&["the", "the", "the"]));
    assert_eq!(tokenize("zeta alpha zeta"), strings(&["zeta", "alpha", "zeta"]));
    for t in tokenize("one, 'two' three's x ''y'' 42") {
        assert!(t.chars().count() >= 2);
    }
}

#[test]
fn tokenize_trims_apostrophes_at_the_ends_only() {
    assert_eq!(tokenize("'quoted' don't ''x'' 'ab"), strings(&["quoted", "don't", "ab"]));
    assert_eq!(tokenize("'''"), Vec::<String>::new());
    assert_eq!(tokenize("'a'"), Vec::<String>::new());
    assert_eq!(tokenize("rock'n'roll"), strings(&["rock'n'roll"]));
}

#[test]
fn tokenize_counts_characters_not_bytes() {
    assert_eq!(tokenize("é"), Vec::<String>::new());
    assert_eq!(tokenize("été ÉCOLE"), strings(&["été", "école"]));
    assert_eq!(tokenize("naïve–café"), strings(&["naïve", "café"]));
}

#[test]
fn tokenize_lowercases_before_cutting() {
    assert_eq!(tokenize("MiXeD-Case_words"), strings(&["mixed", "case", "words"]));
    // A lower-cased text is cut as it stands.
    assert_eq!(split_words("Hello world"), strings(&["Hello", "world"]));
    assert_ne!(tokenize("Hello world"), split_words("Hello world"));
}

#[test]
fn fnv1a_known_values() {
    assert_eq!(fxhash(""), 0xcbf29ce484222325);
    assert_eq!(fxhash("a"), 0xaf63dc4c8601ec8c);
    assert_eq!(fxhash("foobar"), 0x85944171f73967e8);
    assert_eq!(fxhash("é"), {
        let mut h: u64 = 0xcbf29ce484222325;
        for b in [0xc3u8, 0xa9u8] {
            h ^= b as u64;
            h = h.wrapping_mul(0x100000001b3);
        }
        h
    });
}

#[test]
fn embedder_dimension() {
    let e = HasherEmbedder::new(512);
    assert_eq!(e.dim(), 512);
    assert_eq!(e.embed_counts("some text here").len(), 512);
    assert_eq!(HasherEmbedder::new(0).embed_counts("some text").len(), 0);
    assert_eq!(HasherEmbedder::new(3).embed_counts(""), vec![0, 0, 0]);
}

#[test]
fn embedder_counts_are_signed_bucket_sums() {
    let e = HasherEmbedder::new(8);
    let text = "alpha beta gamma alpha delta alpha";
    let mut want = vec![0i64; 8];
    for t in tokenize(text) {
        let h = fxhash(&t);
        want[(h % 8) as usize] += if h & 1 == 0 { 1 } else { -1 };
    }
    assert_eq!(e.embed_counts(text), want);
    assert_eq!(e.count(&tokenize(text)), want);
    assert_eq!(want.iter().map(|c| c.abs()).sum::<i64>() % 2, 0);
    // "a" hashes to 0xaf63dc4c8601ec8c: bucket 4 of 8, even, so plus one.
    assert_eq!(e.count(&strings(&["a"])), vec![0, 0, 0, 0, 1, 0, 0, 0]);
    // "foobar" hashes to 0x85944171f73967e8: bucket 0 of 8, plus one.
    assert_eq!(e.count(&strings(&["foobar", "foobar"])), vec![2, 0, 0, 0, 0, 0, 0, 0]);
}

#[test]
fn embedded_vector_has_unit_norm_or_is_zero() {
    let e = HasherEmbedder::new(64);
    for text in ["", "x", "the quick brown fox jumps over the lazy dog"] {
        let counts = e.embed_counts(text);
        let norm = counts.iter().map(|c| (*c as f64) * (*c as f64)).sum::<f64>().sqrt() as f32;
        let v: Vec<f32> = counts
            .iter()
            .map(|c| if norm > 0.0 { *c as f32 / norm } else { *c as f32 })
            .collect();
        let n2 = v.iter().map(|x| x * x).sum::<f32>().sqrt();
        assert!(n2 == 0.0 || (n2 - 1.0).abs() < 1e-5);
        assert_eq!(v.len(), 64);
    }
}

#[test]
fn trimming_helpers() {
    let chars = chars_of("  ''ab'  ");
    assert_eq!(chars.len(), 9);
    assert_eq!(trim_bounds(&chars, 0, 9, Margin::Blanks), (2, 7));
    assert_eq!(trim_bounds(&chars, 2, 7, Margin::Quotes), (4, 6));
    assert_eq!(trim_bounds(&chars, 0, 2, Margin::Blanks), (2, 2));
    assert_eq!(trim_bounds(&chars, 7, 9, Margin::Blanks), (9, 9));
    assert_eq!(string_of(&chars, 4, 6), "ab");
    assert_eq!(string_of(&chars, 4, 4), "");
    assert!(is_strippable(Margin::Quotes, '\''));
    assert!(!is_strippable(Margin::Quotes, ' '));
    assert!(is_strippable(Margin::Blanks, '\n'));
    assert!(is_strippable(Margin::Blanks, '\u{3000}'));
    assert!(!is_strippable(Margin::Blanks, '\''));
}

#[test]
fn joining() {
    let parts = strings(&["a", "bc", "", "d"]);
    assert_eq!(join_range(&parts, 0, 4, " "), "a bc  d");
    assert_eq!(join_range(&parts, 1, 2, " "), "bc");
    assert_eq!(join_range(&parts, 2, 2, ", "), "");
    assert_eq!(join_range(&parts, 0, 2, ", "), "a, bc");
}

#[test]
fn paragraphs_are_cut_at_blank_lines() {
    assert_eq!(split_paragraphs("one\n\ntwo\n\n\n\nthree"), strings(&["one", "two", "three"]));
    assert_eq!(split_paragraphs("  one \n\n\ttwo\n"), strings(&["one", "two"]));
    assert_eq!(split_paragraphs("a\n\n\nb"), strings(&["a", "b"]));
    assert_eq!(split_paragraphs("a\nb"), strings(&["a\nb"]));
}

#[test]
fn paragraphs_of_a_blank_text() {
    assert_eq!(split_paragraphs(""), strings(&[""]));
    assert_eq!(split_paragraphs("   \n\n \n\n"), strings(&[""]));
    assert_eq!(split_paragraphs("\n"), strings(&[""]));
}

#[test]
fn sentences_end_at_marks_followed_by_whitespace() {
    assert_eq!(
        split_sentences("Hello there. How are you?  Fine! thanks"),
        strings(&["Hello there.", "How are you?", "Fine!", "thanks"])
    );
    assert_eq!(split_sentences("No end mark"), strings(&["No end mark"]));
    assert_eq!(split_sentences("One. "), strings(&["One."]));
    assert_eq!(split_sentences("3.14 is pi. Yes"), strings(&["3.14 is pi.", "Yes"]));
    assert_eq!(split_sentences(""), Vec::<String>::new());
    assert_eq!(split_sentences("   "), Vec::<String>::new());
    assert_eq!(split_sentences("Line one.\nLine two."), strings(&["Line one.", "Line two."]));
    assert_eq!(split_sentences("Été fini. Ça va ?"), strings(&["Été fini.", "Ça va ?"]));
}

#[test]
fn sentences_at_given_spans() {
    let text = "ab. cd! ef";
    assert!(check_spans(text, &vec![(0, 3), (4, 7)]));
    assert_eq!(cut_sentences(text, &vec![(0, 3), (4, 7)]), strings(&["ab.", "cd!", "ef"]));
    assert_eq!(cut_sentences(text, &vec![]), strings(&["ab. cd! ef"]));
    assert_eq!(cut_sentences(text, &vec![(0, 10)]), strings(&["ab. cd! ef"]));
    assert_eq!(cut_sentences(text, &vec![(3, 4)]), strings(&["", "cd! ef"]));
    assert!(!check_spans(text, &vec![(3, 2)]));
    assert!(!check_spans(text, &vec![(0, 11)]));
    assert!(!check_spans("é.", &vec![(0, 1)]));
    assert!(check_spans("é.", &vec![(0, 2), (2, 3)]));
    assert_eq!(cut_sentences("é. x", &vec![(0, 3)]), strings(&["é.", "x"]));
}

#[test]
fn sentence_windows() {
    let s = strings(&["a.", "b.", "c.", "d.", "e."]);
    assert_eq!(chunk_by_sentences(&s, 2), strings(&["a. b.", "c. d.", "e."]));
    assert_eq!(chunk_by_sentences(&s, 5), strings(&["a. b. c. d. e."]));
    assert_eq!(chunk_by_sentences(&s, 9), strings(&["a. b. c. d. e."]));
    assert_eq!(chunk_by_sentences(&s, 1), s);
    assert_eq!(chunk_by_sentences(&s, 0), Vec::<String>::new());
    assert_eq!(chunk_by_sentences(&[], 3), Vec::<String>::new());
}

#[test]
fn chunk_text_prefers_paragraphs_when_there_are_five() {
    let five = "one\n\ntwo\n\nthree\n\nfour\n\nfive";
    assert_eq!(chunk_text(five), strings(&["one", "two", "three", "four", "five"]));
    let four = "One. Two.\n\nThree. Four.\n\nFive. Six.\n\nSeven.";
    assert_eq!(chunk_text(four), strings(&["One. Two. Three. Four. Five.", "Six. Seven."]));
    assert_eq!(chunk_text(""), Vec::<String>::new());
}

#[test]
fn chunk_text_uses_wider_windows_for_long_texts() {
    let text: String = (0..60).map(|i| format!("Sentence number {}. ", i)).collect();
    let chunks = chunk_text(&text);
    assert_eq!(chunks.len(), 8);
    assert!(chunks[0].ends_with("number 7."));
    assert!(chunks[7].starts_with("Sentence number 56."));
    let short: String = (0..50).map(|i| format!("Sentence number {}. ", i)).collect();
    assert_eq!(chunk_text(&short).len(), 10);
}

#[test]
fn token_windows_overlap() {
    let text = "aa bb cc dd ee ff gg hh ii jj";
    assert_eq!(
        chunk_by_token_overlap(text, 4, 2),
        strings(&["aa bb cc dd", "cc dd ee ff", "ee ff gg hh", "gg hh ii jj"])
    );
    assert_eq!(
        chunk_by_token_overlap(text, 4, 1),
        strings(&["aa bb cc dd", "dd ee ff gg", "gg hh ii jj"])
    );
    assert_eq!(
        chunk_by_token_overlap(text, 6, 0),
        strings(&["aa bb cc dd ee ff", "gg hh ii jj"])
    );
    let chunks = chunk_by_token_overlap(text, 5, 3);
    for w in chunks.windows(2) {
        let a: Vec<&str> = w[0].split(' ').collect();
        let b: Vec<&str> = w[1].split(' ').collect();
        assert_eq!(a[a.len() - 3..], b[..3]);
    }
}

#[test]
fn token_windows_step_one_when_overlap_is_not_smaller() {
    let text = "aa bb cc dd";
    assert_eq!(chunk_by_token_overlap(text, 2, 2), strings(&["aa bb", "bb cc", "cc dd"]));
    assert_eq!(chunk_by_token_overlap(text, 2, 7), strings(&["aa bb", "bb cc", "cc dd"]));
    assert_eq!(chunk_by_token_overlap(text, 1, 1), strings(&["aa", "bb", "cc", "dd"]));
}

#[test]
fn token_windows_edge_cases() {
    assert_eq!(chunk_by_token_overlap("aa bb", 0, 0), Vec::<String>::new());
    assert_eq!(chunk_by_token_overlap("", 3, 1), Vec::<String>::new());
    assert_eq!(chunk_by_token_overlap("a b c", 3, 1), Vec::<String>::new());
    assert_eq!(chunk_by_token_overlap("aa bb", 2, 0), strings(&["aa bb"]));
    assert_eq!(chunk_by_token_overlap("aa bb", 1000, 300), strings(&["aa bb"]));
    assert_eq!(chunk_by_token_overlap("aa bb", usize::MAX, 0), strings(&["aa bb"]));
    assert_eq!(chunk_by_token_overlap("aa bb cc", usize::MAX, usize::MAX), strings(&["aa bb cc"]));
    assert_eq!(window_tokens(&strings(&["x", "y", "z"]), 2, 1), strings(&["x y", "y z"]));
}
