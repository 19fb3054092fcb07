use english_trainer::domain::{format_traslation, Answer, Word};
use english_trainer::parse::{parse_line, LoadTrainerError};

fn s(text: &str) -> String {
    text.to_string()
}

#[test]
fn word_normalizes_original_and_variants() {
    let word = Word::new("  CaT ", &[vec![s(" Кот"), s("ШАР ")]]);
    assert_eq!(word.get_original().as_str(), "cat");
    assert_eq!(word.get_translation(), &vec![vec![s("кот"), s("шар")]]);
}

#[test]
fn word_sorts_variants_within_slot() {
    let word = Word::new("x", &[vec![s("b"), s("a"), s("c")]]);
    assert_eq!(word.get_translation(), &vec![vec![s("a"), s("b"), s("c")]]);
}

#[test]
fn word_with_no_slots() {
    let word = Word::new("x", &[]);
    assert_eq!(word.get_translation().len(), 0);
}

#[test]
fn answer_splits_tokens_and_variants() {
    let answer = Answer::from_answer_text("one two/three");
    assert_eq!(
        answer.get_items(),
        vec![vec![s("one")], vec![s("three"), s("two")]].as_slice()
    );
}

#[test]
fn answer_lowercases() {
    let answer = Answer::from_answer_text("CAT");
    assert_eq!(answer.get_items(), vec![vec![s("cat")]].as_slice());
}

#[test]
fn answer_trims_whitespace_including_tabs() {
    let answer = Answer::from_answer_text("\tcat \n");
    assert_eq!(answer.get_items(), vec![vec![s("cat")]].as_slice());
}

#[test]
fn answer_drops_empty_tokens_and_variants() {
    let answer = Answer::from_answer_text("  a  b/ ");
    assert_eq!(answer.get_items(), vec![vec![s("a")], vec![s("b")]].as_slice());
}

#[test]
fn answer_from_empty_text() {
    assert_eq!(Answer::from_answer_text("").get_items().len(), 0);
    assert_eq!(Answer::from_answer_text("   ").get_items().len(), 0);
}

#[test]
fn answer_sorts_variants() {
    let answer = Answer::from_answer_text("b/a");
    assert_eq!(answer.get_items(), vec![vec![s("a"), s("b")]].as_slice());
}

#[test]
fn parse_line_reads_original_and_slots() {
    let word = parse_line("dog:hound/puppy pet").unwrap();
    assert_eq!(word.get_original().as_str(), "dog");
    assert_eq!(
        word.get_translation(),
        &vec![vec![s("hound"), s("puppy")], vec![s("pet")]]
    );
}

#[test]
fn parse_line_without_separator_is_rejected() {
    assert!(matches!(parse_line("dog hound"), Err(LoadTrainerError::ParseError)));
    assert!(matches!(parse_line(""), Err(LoadTrainerError::ParseError)));
}

#[test]
fn parse_line_ignores_text_after_second_separator() {
    let word = parse_line("a:b:c").unwrap();
    assert_eq!(word.get_original().as_str(), "a");
    assert_eq!(word.get_translation(), &vec![vec![s("b")]]);
}

#[test]
fn parse_line_trims_around_separator() {
    let word = parse_line("  dog : Hound  ").unwrap();
    assert_eq!(word.get_original().as_str(), "dog");
    assert_eq!(word.get_translation(), &vec![vec![s("hound")]]);
}

#[test]
fn parse_error_clones() {
    let err = LoadTrainerError::ParseError;
    assert!(matches!(err.clone(), LoadTrainerError::ParseError));
}

#[test]
fn format_traslation_joins_variants_and_slots() {
    let translation = vec![vec![s("a"), s("b")], vec![s("c")]];
    assert_eq!(format_traslation(&translation).as_str(), "a/b c");
}

#[test]
fn format_traslation_of_empty_translation() {
    let translation: Vec<Vec<String>> = Vec::new();
    assert_eq!(format_traslation(&translation).as_str(), "");
}

#[test]
fn trainer_from_text_reads_nonblank_lines() {
    let trainer = english_trainer::parse::trainer_from_text("cat:кот\n\ndog:пёс\n").unwrap();
    assert_eq!(trainer.get_words_count(), 2);
    assert_eq!(trainer.get_correct_answers_count(), 0);
}

#[test]
fn trainer_from_text_rejects_a_bad_line() {
    let result = english_trainer::parse::trainer_from_text("cat:кот\nno separator here\n");
    assert!(matches!(result, Err(english_trainer::parse::LoadTrainerError::ParseError)));
}

#[test]
fn trainer_from_text_of_blank_text_is_empty() {
    let trainer = english_trainer::parse::trainer_from_text("\n  \n").unwrap();
    assert_eq!(trainer.get_words_count(), 0);
    assert!(trainer.get_current_word().is_none());
}
