use translator_core::cleanup::clean_text;
use translator_core::segment::{split_into_paragraphs, split_into_sentences};
use translator_core::text::{is_whitespace, render_lines};
use translator_core::Translator;

fn translator() -> Translator {
    Translator::builder().build().unwrap()
}

#[test]
fn sentences_keep_their_punctuation() {
    let got = split_into_sentences("Bonjour. Comment ça va? Très bien!");
    assert_eq!(got, vec!["Bonjour.", "Comment ça va?", "Très bien!"]);
}

#[test]
fn translator_segments_a_paragraph() {
    let segments = translator().segment("Bonjour. Comment ça va? Très bien!");
    assert_eq!(segments, vec!["Bonjour.", "Comment ça va?", "Très bien!"]);
}

#[test]
fn a_run_of_marks_is_one_boundary() {
    let got = split_into_sentences("¿Bonjour!? Quoi?");
    assert_eq!(got, vec!["¿Bonjour!?", "Quoi?"]);
}

#[test]
fn a_mark_inside_a_word_is_no_boundary() {
    let got = split_into_sentences("Version 1.5 is out. See example.com today");
    assert_eq!(got, vec!["Version 1.5 is out.", "See example.com today"]);
}

#[test]
fn text_without_marks_is_one_trimmed_sentence() {
    assert_eq!(split_into_sentences("  Bonjour le monde \n"), vec!["Bonjour le monde"]);
}

#[test]
fn empty_and_blank_texts_have_no_sentences() {
    assert!(split_into_sentences("").is_empty());
    assert!(split_into_sentences(" \t\n ").is_empty());
}

#[test]
fn trailing_text_is_a_last_sentence() {
    let got = split_into_sentences("One. Two!   and the rest");
    assert_eq!(got, vec!["One.", "Two!", "and the rest"]);
}

#[test]
fn sentences_are_trimmed_of_unicode_whitespace() {
    let got = split_into_sentences("\u{00A0}Un.\u{2003}Deux.\u{3000}");
    assert_eq!(got, vec!["Un.", "Deux."]);
}

#[test]
fn sentences_span_line_feeds() {
    let got = split_into_sentences("Hello\nworld. Next");
    assert_eq!(got, vec!["Hello\nworld.", "Next"]);
}

#[test]
fn paragraphs_split_at_blank_lines() {
    let got = clean_text("  one\ntwo \n\n\n three\n\n\n\n");
    assert_eq!(got, vec!["one two", "three"]);
}

#[test]
fn paragraphs_of_a_text_without_blank_line() {
    assert_eq!(split_into_paragraphs("a\nb\nc"), vec!["a b c"]);
    assert!(split_into_paragraphs("\n\n\n").is_empty());
    assert!(split_into_paragraphs("").is_empty());
}

#[test]
fn paragraphs_keep_their_order() {
    let got = split_into_paragraphs("first\n\nsecond\n\nthird");
    assert_eq!(got, vec!["first", "second", "third"]);
}

#[test]
fn whitespace_is_the_unicode_property() {
    for c in [' ', '\t', '\n', '\r', '\u{0B}', '\u{0C}', '\u{85}', '\u{A0}', '\u{1680}', '\u{2000}', '\u{200A}', '\u{2028}', '\u{2029}', '\u{202F}', '\u{205F}', '\u{3000}'] {
        assert!(is_whitespace(c));
    }
    for c in ['a', '.', '\u{200B}', '\u{FEFF}', '\u{180E}', '0'] {
        assert!(!is_whitespace(c));
    }
    let mut c = 0u32;
    while c < 0x3100 {
        if let Some(ch) = char::from_u32(c) {
            assert_eq!(is_whitespace(ch), ch.is_whitespace());
        }
        c += 1;
    }
}

#[test]
fn lines_are_rendered_with_line_feeds() {
    assert_eq!(render_lines(&["a".to_string(), "b c".to_string()]), "a\nb c\n");
    assert_eq!(render_lines(&[]), "");
}

#[test]
fn a_document_is_segmented_paragraph_by_paragraph() {
    let got = translator_core::segment::segment_document(
        "Premier paragraphe\nsans point\n\nUn. Deux!\n\n\n  \n\nTrois?",
    );
    assert_eq!(got, vec!["Premier paragraphe sans point", "Un.", "Deux!", "Trois?"]);
    assert!(translator_core::segment::segment_document("\n\n \n\n").is_empty());
}
