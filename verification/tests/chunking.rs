use daemon_one_core::chunker::chunk_text;
use daemon_one_core::sentences::split_sentences;

#[test]
fn chunk_text_splits_on_budget() {
    let chunks = chunk_text("Hello world. This is a test. Short.", 5);
    assert_eq!(chunks, vec!["Hello world.", "This is a test.", "Short."]);
}

#[test]
fn chunk_text_of_empty_text_is_empty() {
    assert_eq!(chunk_text("", 10), Vec::<String>::new());
}

#[test]
fn split_sentences_trims_and_drops_blanks() {
    let s = split_sentences("  One!  Two?? \n\n three . ");
    assert_eq!(s, vec!["One", "Two", "three"]);
}
