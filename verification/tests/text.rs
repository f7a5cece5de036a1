use daemon_one_core::chars::{chars_of, span_byte_len, string_of_span, white_space};
use daemon_one_core::chunker::{chunk_text, span_cost};
use daemon_one_core::cleaner::clean_text_for_ai;
use daemon_one_core::sentences::split_sentences;
use daemon_one_core::split::{piece_spans, separates, Cut};
use daemon_one_core::tokens::{count_tokens_approx, hangul};
use daemon_one_core::trim::trim_span;

fn strings(items: &[&str]) -> Vec<String> {
    items.iter().map(|s| s.to_string()).collect()
}

#[test]
fn white_space_is_that_of_std() {
    for u in 0..=0x10FFFFu32 {
        if let Some(c) = char::from_u32(u) {
            assert_eq!(white_space(c), c.is_whitespace(), "U+{:04X}", u);
        }
    }
}

#[test]
fn chars_of_and_back() {
    let text = "a\u{e9}\u{4e2d}\u{1F980} z";
    let chars = chars_of(text);
    assert_eq!(chars, text.chars().collect::<Vec<char>>());
    assert_eq!(string_of_span(&chars, 0, chars.len()), text);
    assert_eq!(string_of_span(&chars, 1, 3), "\u{e9}\u{4e2d}");
    assert_eq!(string_of_span(&chars, 2, 2), "");
    assert_eq!(chars_of(""), Vec::<char>::new());
}

#[test]
fn byte_length_is_that_of_utf8() {
    let text = "a\u{7f}\u{80}\u{7ff}\u{800}\u{ffff}\u{10000}\u{10ffff}";
    let chars = chars_of(text);
    assert_eq!(span_byte_len(&chars, 0, chars.len()), text.len() as u128);
    assert_eq!(span_byte_len(&chars, 0, 2), 2);
    assert_eq!(span_byte_len(&chars, 2, 4), 4);
    assert_eq!(span_byte_len(&chars, 4, 6), 6);
    assert_eq!(span_byte_len(&chars, 6, 8), 8);
    assert_eq!(span_byte_len(&chars, 3, 3), 0);
}

#[test]
fn trim_span_is_trim_of_std() {
    for text in ["", " ", "  a  ", "a", "\t\n x y \r\n", "\u{a0}\u{3000}z\u{2003}", "no", " . "] {
        let chars = chars_of(text);
        let (a, b) = trim_span(&chars, 0, chars.len());
        assert_eq!(string_of_span(&chars, a, b), text.trim());
    }
    let chars = chars_of("ab  cd  ef");
    assert_eq!(trim_span(&chars, 2, 8), (4, 6));
    assert_eq!(trim_span(&chars, 2, 4), (4, 4));
}

#[test]
fn separators() {
    for c in ['.', '!', '?', '\n'] {
        assert!(separates(Cut::Sentence, c));
    }
    for c in [',', ';', ' ', '\r', 'a', '\u{3002}'] {
        assert!(!separates(Cut::Sentence, c));
    }
    assert!(separates(Cut::Line, '\n'));
    assert!(!separates(Cut::Line, '.'));
    assert!(!separates(Cut::Line, '\r'));
}

#[test]
fn piece_spans_of_sentences() {
    let chars = chars_of(" a. b!c ");
    assert_eq!(piece_spans(&chars, Cut::Sentence), vec![(1, 2), (4, 5), (6, 7)]);
    assert_eq!(piece_spans(&chars, Cut::Line), vec![(1, 7)]);
    assert_eq!(piece_spans(&chars_of(""), Cut::Sentence), vec![]);
    assert_eq!(piece_spans(&chars_of("..."), Cut::Sentence), vec![]);
}

#[test]
fn split_sentences_is_split_trim_filter() {
    for text in [
        "Hello world. This is a test. Short.",
        "",
        "...",
        "one",
        " lead and trail ",
        "a.b!c?d\ne",
        "Wait... what?!  Yes.\n\nNew paragraph\r\nlast",
        "\u{a0}x\u{a0}.\u{3000}.y",
    ] {
        let expected: Vec<String> = text
            .split(|c| c == '.' || c == '!' || c == '?' || c == '\n')
            .filter(|s| !s.trim().is_empty())
            .map(|s| s.trim().to_string())
            .collect();
        assert_eq!(split_sentences(text), expected, "{:?}", text);
    }
}

#[test]
fn sentence_cost_is_a_quarter_of_the_bytes_plus_one() {
    let chars = chars_of("Hello world");
    assert_eq!(span_cost(&chars, 0, 11), 3);
    assert_eq!(span_cost(&chars, 0, 0), 1);
    assert_eq!(span_cost(&chars, 0, 3), 1);
    assert_eq!(span_cost(&chars, 0, 4), 2);
    let wide = chars_of("\u{d55c}\u{ae00}");
    assert_eq!(span_cost(&wide, 0, 2), 2);
}

#[test]
fn chunks_follow_the_greedy_rule() {
    // costs: 3, 4, 2
    let text = "Hello world. This is a test. Short.";
    assert_eq!(chunk_text(text, 5), strings(&["Hello world.", "This is a test.", "Short."]));
    assert_eq!(chunk_text(text, 6), strings(&["Hello world.", "This is a test. Short."]));
    assert_eq!(chunk_text(text, 7), strings(&["Hello world. This is a test.", "Short."]));
    assert_eq!(chunk_text(text, 8), strings(&["Hello world. This is a test.", "Short."]));
    assert_eq!(chunk_text(text, 9), strings(&["Hello world. This is a test. Short."]));
    assert_eq!(chunk_text(text, usize::MAX), strings(&["Hello world. This is a test. Short."]));
}

#[test]
fn zero_budget_gives_one_chunk_per_sentence() {
    assert_eq!(chunk_text("a. b. c", 0), strings(&["a.", "b.", "c."]));
}

#[test]
fn oversized_sentence_stands_alone() {
    let long = "This sentence is far longer than the budget allows";
    let text = format!("Hi. {}. Ok. Go.", long);
    let expected = vec!["Hi.".to_string(), format!("{}.", long), "Ok. Go.".to_string()];
    assert_eq!(chunk_text(&text, 2), expected);
}

#[test]
fn chunks_of_blank_text_are_none() {
    assert_eq!(chunk_text("", 10), Vec::<String>::new());
    assert_eq!(chunk_text(" \n\t ", 10), Vec::<String>::new());
    assert_eq!(chunk_text("...!?", 10), Vec::<String>::new());
}

#[test]
fn no_chunk_is_blank() {
    for text in ["a. . b", " . x . ", "One!  Two?? \n\n three . ", "\u{a0}.\u{a0}q"] {
        for max in 0..6 {
            for chunk in chunk_text(text, max) {
                assert!(!chunk.trim().is_empty());
                assert_eq!(chunk.trim(), chunk);
            }
        }
    }
}

#[test]
fn chunks_hold_the_sentences_in_order() {
    let text = "Alpha beta. Gamma! Delta epsilon zeta? Eta\nTheta iota. Kappa";
    let sentences = split_sentences(text);
    for max in 0..12 {
        let chunks = chunk_text(text, max);
        let mut again: Vec<String> = Vec::new();
        for chunk in &chunks {
            again.extend(split_sentences(chunk));
        }
        assert_eq!(again, sentences);
        assert_eq!(split_sentences(&chunks.concat()), sentences);
    }
}

#[test]
fn cost_counts_bytes_not_characters() {
    // two sentences of four characters: twelve bytes each as Hangul, four as Latin
    assert_eq!(chunk_text("\u{d55c}\u{ae00}\u{d55c}\u{ae00}. \u{d55c}\u{ae00}\u{d55c}\u{ae00}", 4).len(), 2);
    assert_eq!(chunk_text("abcd. abcd", 4).len(), 1);
}

fn chunks_by_accumulation(text: &str, max_tokens: usize) -> Vec<String> {
    let sentences: Vec<&str> = text
        .split(|c| c == '.' || c == '!' || c == '?' || c == '\n')
        .filter(|s| !s.trim().is_empty())
        .collect();
    let mut chunks: Vec<String> = Vec::new();
    let mut current = String::new();
    let mut tokens = 0;
    for sentence in sentences {
        let sentence = sentence.trim();
        let cost = sentence.len() / 4 + 1;
        if tokens + cost > max_tokens && !current.is_empty() {
            chunks.push(current.trim().to_string());
            current = String::new();
            tokens = 0;
        }
        current.push_str(sentence);
        current.push_str(". ");
        tokens += cost;
    }
    if !current.trim().is_empty() {
        chunks.push(current.trim().to_string());
    }
    chunks
}

#[test]
fn chunk_text_is_the_accumulating_loop() {
    let text = "The quick brown fox. Jumps! Over the lazy dog? Yes\nIt does. \u{d55c}\u{ae00} text. \
                A much longer sentence that will not fit in any small budget at all. End";
    for max in 0..40 {
        assert_eq!(chunk_text(text, max), chunks_by_accumulation(text, max), "budget {}", max);
    }
}

#[test]
fn clean_text_collapses_white_space() {
    assert_eq!(clean_text_for_ai("  Hello   world \n\n\n  second\tline  \n"), "Hello world second line");
    assert_eq!(clean_text_for_ai("a \u{a0} b"), "a b");
    assert_eq!(clean_text_for_ai("a\r\nb\rc"), "a b c");
    assert_eq!(clean_text_for_ai("x\u{3000}\u{2003}y"), "x y");
    assert_eq!(clean_text_for_ai("one"), "one");
}

#[test]
fn clean_text_of_blank_is_empty() {
    assert_eq!(clean_text_for_ai(""), "");
    assert_eq!(clean_text_for_ai(" \n \t\n"), "");
}

fn cleaned_by_hand(text: &str) -> String {
    let cleaned: String = text
        .lines()
        .map(|line| line.trim())
        .filter(|line| !line.is_empty())
        .collect::<Vec<_>>()
        .join("\n");
    let mut out = String::new();
    let mut in_run = false;
    for c in cleaned.chars() {
        if c.is_whitespace() {
            if !in_run {
                out.push(' ');
            }
            in_run = true;
        } else {
            out.push(c);
            in_run = false;
        }
    }
    out.trim().to_string()
}

#[test]
fn clean_text_is_lines_trim_join_replace() {
    for text in [
        "plain",
        "  two  spaces\tand\ttabs  ",
        "line one\nline two\r\n\r\n  line three \n",
        "\n\n\n",
        "tail \r",
        "a\u{2028}b\u{85}c",
    ] {
        assert_eq!(clean_text_for_ai(text), cleaned_by_hand(text), "{:?}", text);
    }
}

#[test]
fn cleaned_text_is_single_spaced() {
    for text in ["  a \t b\n\n c  ", "\u{3000}x\u{a0}\u{a0}y\r\n", "one\ntwo"] {
        let cleaned = clean_text_for_ai(text);
        assert_eq!(cleaned.trim(), cleaned);
        assert!(!cleaned.contains("  "));
        assert!(cleaned.chars().all(|c| !c.is_whitespace() || c == ' '));
    }
}

#[test]
fn token_estimates() {
    assert_eq!(count_tokens_approx(""), 1);
    assert_eq!(count_tokens_approx("abc"), 1);
    assert_eq!(count_tokens_approx("abcd"), 2);
    assert_eq!(count_tokens_approx("Hello, world!"), 4);
    // all Hangul: one token for two characters
    assert_eq!(count_tokens_approx("\u{d55c}\u{ae00}\u{d55c}\u{ae00}"), 3);
    // three Hangul of ten: exactly three tenths, not more
    assert_eq!(count_tokens_approx("\u{d55c}\u{ae00}\u{d55c}abcdefg"), 3);
    // four of ten
    assert_eq!(count_tokens_approx("\u{d55c}\u{ae00}\u{d55c}\u{ae00}abcdef"), 6);
    // one of three
    assert_eq!(count_tokens_approx("\u{1100}ab"), 2);
}

#[test]
fn hangul_share_is_the_ratio_above_three_tenths() {
    for n in 1..=90usize {
        for k in 0..=n {
            let text = format!("{}{}", "\u{d55c}".repeat(k), "a".repeat(n - k));
            let ratio = k as f64 / n as f64;
            let expected = if ratio > 0.3 { n / 2 + 1 } else { n / 4 + 1 };
            assert_eq!(count_tokens_approx(&text), expected, "{} of {}", k, n);
        }
    }
}

#[test]
fn hangul_ranges() {
    for (c, expected) in [
        ('\u{ac00}', true), ('\u{d7af}', true), ('\u{abff}', false), ('\u{d7b0}', false),
        ('\u{1100}', true), ('\u{11ff}', true), ('\u{10ff}', false), ('\u{1200}', false),
        ('\u{3130}', true), ('\u{318f}', true), ('\u{312f}', false), ('\u{3190}', false),
        ('a', false), ('\u{4e2d}', false),
    ] {
        assert_eq!(hangul(c), expected);
    }
}
