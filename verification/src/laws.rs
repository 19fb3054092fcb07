//! The laws of the drill, stated over the mathematical values of the types
//! and proved from the specifications of the transitions.

use vstd::prelude::*;
use crate::domain::{is_correct_spec, next_words, TrainerV};

verus! {

/// Correct-answer law: an answer that equals the current word's translation,
/// slot for slot, is judged correct, and resolving it drops exactly the
/// current word, leaving the relative order of the others unchanged.
pub proof fn lemma_correct_answer(t: TrainerV, answer: Seq<Seq<Seq<char>>>)
    requires
        t.words.len() > 0,
        answer == t.words[0].translation,
    ensures
        is_correct_spec(t, answer),
        next_words(t.words, is_correct_spec(t, answer)) == t.words.drop_first(),
{
}

/// Incorrect-answer law: any other answer is judged incorrect, and resolving
/// it moves the current word to the end of the deck, the others keeping
/// their relative order.
pub proof fn lemma_incorrect_answer(t: TrainerV, answer: Seq<Seq<Seq<char>>>)
    requires
        t.words.len() > 0,
        answer != t.words[0].translation,
    ensures
        !is_correct_spec(t, answer),
        next_words(t.words, is_correct_spec(t, answer)) == t.words.drop_first().push(t.words[0]),
{
}

/// Length-mismatch law: an answer with a different number of slots than the
/// current word's translation is incorrect, whatever the slots hold.
pub proof fn lemma_length_mismatch(t: TrainerV, answer: Seq<Seq<Seq<char>>>)
    requires
        t.words.len() > 0,
        answer.len() != t.words[0].translation.len(),
    ensures
        !is_correct_spec(t, answer),
{
}

/// Empty-deck law: with no words left, every answer is judged incorrect, and
/// resolving the judgment leaves the empty deck unchanged.
pub proof fn lemma_empty_deck(t: TrainerV, answer: Seq<Seq<Seq<char>>>)
    requires
        t.words.len() == 0,
    ensures
        !is_correct_spec(t, answer),
        next_words(t.words, is_correct_spec(t, answer)) == t.words,
{
}

/// The deck after a run of correctly answered rounds.
pub open spec fn drill_correct(t: TrainerV, rounds: nat) -> TrainerV
    decreases rounds,
{
    if rounds == 0 {
        t
    } else {
        drill_correct(
            TrainerV { words: next_words(t.words, true), words_count: t.words_count },
            (rounds - 1) as nat,
        )
    }
}

/// Termination law: answering every current word correctly drains the deck
/// after exactly as many rounds as there are remaining words — no fewer —
/// and the total word count never changes along the way.
pub proof fn lemma_termination(t: TrainerV)
    ensures
        drill_correct(t, t.words.len()).words.len() == 0,
        forall|rounds: nat|
            rounds <= t.words.len() ==> (#[trigger] drill_correct(t, rounds)).words_count
                == t.words_count,
        forall|rounds: nat|
            rounds < t.words.len() ==> (#[trigger] drill_correct(t, rounds)).words.len() > 0,
    decreases t.words.len(),
{
    if t.words.len() == 0 {
        assert forall|rounds: nat| rounds <= t.words.len() implies (#[trigger] drill_correct(
            t,
            rounds,
        )).words_count == t.words_count by {
        }
    } else {
        let t1 = TrainerV { words: next_words(t.words, true), words_count: t.words_count };
        assert(t1.words.len() == t.words.len() - 1);
        lemma_termination(t1);
        assert(drill_correct(t, t.words.len()) == drill_correct(t1, t1.words.len()));
        assert forall|rounds: nat| rounds <= t.words.len() implies (#[trigger] drill_correct(
            t,
            rounds,
        )).words_count == t.words_count by {
            if rounds > 0 {
                assert(drill_correct(t, rounds) == drill_correct(t1, (rounds - 1) as nat));
            }
        }
        assert forall|rounds: nat| rounds < t.words.len() implies (#[trigger] drill_correct(
            t,
            rounds,
        )).words.len() > 0 by {
            if rounds > 0 {
                assert(drill_correct(t, rounds) == drill_correct(t1, (rounds - 1) as nat));
            }
        }
    }
}

} // verus!
