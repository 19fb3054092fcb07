use english_trainer::domain::{format_traslation, Answer, Trainer, Word};

fn s(text: &str) -> String {
    text.to_string()
}

fn cat() -> Word {
    Word::new("cat", &[vec![s("кот"), s("кошка")]])
}

fn dog() -> Word {
    Word::new("dog", &[vec![s("пёс")]])
}

fn sun() -> Word {
    Word::new("sun", &[vec![s("солнце")]])
}

#[test]
fn new_records_words_count() {
    let trainer = Trainer::new(&[cat(), dog(), sun()]);
    assert_eq!(trainer.get_words_count(), 3);
    assert_eq!(trainer.get_correct_answers_count(), 0);
}

#[test]
fn words_count_is_invariant_under_transitions() {
    let trainer = Trainer::new(&[cat(), dog(), sun()]);
    // An answer with no slots never matches a one-slot translation.
    let result = trainer.answer(&Answer::from_answer_text(""));
    assert_eq!(result.get_trainer().get_words_count(), 3);
    let after = result.next();
    assert_eq!(after.get_words_count(), 3);
    let after2 = after.answer(&Answer::from_answer_text("")).next();
    assert_eq!(after2.get_words_count(), 3);
}

#[test]
fn shuffle_keeps_the_words() {
    let trainer = Trainer::new(&[cat(), dog(), sun()]);
    let mut seen: Vec<String> = Vec::new();
    let mut trainer = trainer;
    while let Some(word) = trainer.get_current_word() {
        seen.push(word.get_original().clone());
        let text = format_traslation(word.get_translation());
        let result = trainer.answer(&Answer::from_answer_text(&text));
        assert!(result.is_correct());
        trainer = result.next();
    }
    seen.sort();
    assert_eq!(seen, vec![s("cat"), s("dog"), s("sun")]);
}

#[test]
fn correct_answers_count_plus_remaining_is_total() {
    let trainer = Trainer::from_ordered(&[cat(), dog()]);
    assert_eq!(trainer.get_words_count(), 2);
    assert_eq!(trainer.get_correct_answers_count(), 0);
    let after = trainer.answer(&Answer::from_answer_text("кот/кошка")).next();
    assert_eq!(after.get_words_count(), 2);
    assert_eq!(after.get_correct_answers_count(), 1);
}

#[test]
fn correct_answer_drops_head_and_keeps_order() {
    let trainer = Trainer::from_ordered(&[cat(), dog(), sun()]);
    let result = trainer.answer(&Answer::from_answer_text("кот/кошка"));
    assert!(result.is_correct());
    let after = result.next();
    assert_eq!(after.get_current_word().unwrap().get_original().as_str(), "dog");
    let after2 = after.answer(&Answer::from_answer_text("пёс")).next();
    assert_eq!(after2.get_current_word().unwrap().get_original().as_str(), "sun");
}

#[test]
fn incorrect_answer_moves_head_to_end() {
    let trainer = Trainer::from_ordered(&[cat(), dog(), sun()]);
    let result = trainer.answer(&Answer::from_answer_text("wrong"));
    assert!(!result.is_correct());
    let after = result.next();
    assert_eq!(after.get_current_word().unwrap().get_original().as_str(), "dog");
    let after2 = after.answer(&Answer::from_answer_text("also wrong")).next();
    assert_eq!(after2.get_current_word().unwrap().get_original().as_str(), "sun");
    let after3 = after2.answer(&Answer::from_answer_text("")).next();
    assert_eq!(after3.get_current_word().unwrap().get_original().as_str(), "cat");
}

#[test]
fn length_mismatch_is_always_incorrect() {
    let two_slots = Word::new("greet", &[vec![s("добрый")], vec![s("день")]]);
    let trainer = Trainer::from_ordered(&[two_slots]);
    // The single token equals the first slot exactly, but a slot is missing.
    let result = trainer.answer(&Answer::from_answer_text("добрый"));
    assert!(!result.is_correct());
    let too_many = trainer.answer(&Answer::from_answer_text("добрый день вечер"));
    assert!(!too_many.is_correct());
    let exact = trainer.answer(&Answer::from_answer_text("добрый день"));
    assert!(exact.is_correct());
}

#[test]
fn answering_correctly_drains_the_deck() {
    let mut trainer = Trainer::from_ordered(&[cat(), dog(), sun()]);
    let mut rounds = 0;
    while let Some(word) = trainer.get_current_word() {
        let text = format_traslation(word.get_translation());
        let result = trainer.answer(&Answer::from_answer_text(&text));
        assert!(result.is_correct());
        trainer = result.next();
        rounds += 1;
        assert!(rounds <= 3);
    }
    assert_eq!(rounds, 3);
    assert!(trainer.get_current_word().is_none());
    assert_eq!(trainer.get_correct_answers_count(), 3);
}

#[test]
fn empty_deck_answer_and_next_are_safe() {
    let trainer = Trainer::new(&[]);
    assert!(trainer.get_current_word().is_none());
    let result = trainer.answer(&Answer::from_answer_text("anything"));
    assert!(!result.is_correct());
    let after = result.next();
    assert!(after.get_current_word().is_none());
    assert_eq!(after.get_words_count(), 0);
    assert_eq!(after.get_correct_answers_count(), 0);
}

#[test]
fn partial_variant_answer_is_rejected() {
    let trainer = Trainer::from_ordered(&[cat()]);
    // "кот" alone is only part of the accepted variant set {кот, кошка}.
    let partial = trainer.answer(&Answer::from_answer_text("кот"));
    assert!(!partial.is_correct());
    let full = trainer.answer(&Answer::from_answer_text("кот/кошка"));
    assert!(full.is_correct());
    let reordered = trainer.answer(&Answer::from_answer_text("кошка/кот"));
    assert!(reordered.is_correct());
}

#[test]
fn two_word_deck_counts_across_three_answers() {
    let a = cat();
    let b = dog();
    let trainer = Trainer::from_ordered(&[a, b]);
    // Answer A incorrectly: the deck rotates, nothing is mastered.
    let first = trainer.answer(&Answer::from_answer_text("wrong"));
    assert!(!first.is_correct());
    let t1 = first.next();
    assert_eq!(t1.get_correct_answers_count(), 0);
    // Answer B correctly.
    let second = t1.answer(&Answer::from_answer_text("пёс"));
    assert!(second.is_correct());
    let t2 = second.next();
    assert_eq!(t2.get_correct_answers_count(), 1);
    // A is back at the head; answer it correctly and the deck empties.
    let third = t2.answer(&Answer::from_answer_text("кот/кошка"));
    assert!(third.is_correct());
    let t3 = third.next();
    assert_eq!(t3.get_correct_answers_count(), 2);
    assert!(t3.get_current_word().is_none());
}

#[test]
fn answer_result_keeps_the_snapshot() {
    let trainer = Trainer::from_ordered(&[cat(), dog()]);
    let result = trainer.answer(&Answer::from_answer_text("кот/кошка"));
    let snapshot = result.get_trainer();
    assert_eq!(snapshot.get_correct_answers_count(), 0);
    assert_eq!(
        snapshot.get_current_word().unwrap().get_original().as_str(),
        "cat"
    );
    let copy = result.clone();
    assert!(copy.is_correct());
}
