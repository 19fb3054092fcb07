//! The drill state machine: words with their accepted translations, parsed
//! answers, the trainer that sequences the remaining words, and the judgment
//! of one answer against the current word.

use vstd::prelude::*;
use vstd::string::*;
use crate::text::{
    canon_slot, canon_str, canonicalize_slot, canonicalize_str, keep_nonempty, nonempty_parts,
    split_char, split_spec, trim, trim_spec,
};

use rand::seq::SliceRandom;

verus! {

/// The mathematical value of a word: its normalized original and, slot by
/// slot, the sorted normalized variants accepted as a translation.
pub ghost struct WordV {
    pub original: Seq<char>,
    pub translation: Seq<Seq<Seq<char>>>,
}

/// A word to drill: the text to present, and an ordered sequence of
/// translation slots, each a set of accepted spelling variants.
pub struct Word {
    original: String,
    translation: Vec<Vec<String>>,
}

impl View for Word {
    type V = WordV;

    closed spec fn view(&self) -> WordV {
        WordV { original: self.original@, translation: self.translation.deep_view() }
    }
}

/// The translation slots of a sequence of raw slots, as sequences of strings.
pub open spec fn slots_view(slots: Seq<Vec<String>>) -> Seq<Seq<Seq<char>>> {
    slots.map_values(|slot: Vec<String>| slot.deep_view())
}

/// What a freshly constructed word holds, given the raw original text and the
/// raw translation slots: the original trimmed and lowercased, and every slot
/// normalized (each variant trimmed and lowercased, the variants sorted).
pub open spec fn word_new_spec(original: Seq<char>, slots: Seq<Seq<Seq<char>>>) -> WordV {
    WordV {
        original: canon_str(original),
        translation: slots.map_values(|slot: Seq<Seq<char>>| canon_slot(slot)),
    }
}

impl Word {
    pub fn new(original: &str, translation: &[Vec<String>]) -> (r: Self)
        ensures
            r@ == word_new_spec(original@, slots_view(translation@)),
    {
        let ghost sv = slots_view(translation@);
        let mut slots: Vec<Vec<String>> = Vec::new();
        let mut i: usize = 0;
        while i < translation.len()
            invariant
                i <= translation@.len(),
                sv == slots_view(translation@),
                slots@.len() == i,
                forall|k: int|
                    0 <= k < i ==> slots.deep_view()[k] == canon_slot(#[trigger] sv[k]),
            decreases translation@.len() - i,
        {
            let slot = canonicalize_slot(&translation[i]);
            proof {
                assert(translation@[i as int].deep_view() == sv[i as int]);
            }
            slots.push(slot);
            i = i + 1;
        }
        let r = Word { original: canonicalize_str(original), translation: slots };
        proof {
            assert(r@.translation =~= word_new_spec(original@, sv).translation);
        }
        r
    }

    pub fn get_original(&self) -> (r: &String)
        ensures
            r@ == self@.original,
    {
        &self.original
    }

    pub fn get_translation(&self) -> (r: &Vec<Vec<String>>)
        ensures
            r.deep_view() == self@.translation,
    {
        &self.translation
    }
}

/// Clones one slot; the copy holds the same strings.
fn clone_slot(v: &Vec<String>) -> (r: Vec<String>)
    ensures
        r@ == v@,
{
    let mut out: Vec<String> = Vec::new();
    let mut i: usize = 0;
    while i < v.len()
        invariant
            i <= v@.len(),
            out@ =~= v@.take(i as int),
        decreases v@.len() - i,
    {
        out.push(v[i].clone());
        i = i + 1;
    }
    proof {
        assert(v@.take(v@.len() as int) =~= v@);
    }
    out
}

/// Clones a sequence of slots; the copy reads the same.
fn clone_slots(v: &Vec<Vec<String>>) -> (r: Vec<Vec<String>>)
    ensures
        r.deep_view() == v.deep_view(),
{
    let mut out: Vec<Vec<String>> = Vec::new();
    let mut i: usize = 0;
    while i < v.len()
        invariant
            i <= v@.len(),
            out@.len() == i,
            forall|k: int| 0 <= k < i ==> out.deep_view()[k] == #[trigger] v.deep_view()[k],
        decreases v@.len() - i,
    {
        out.push(clone_slot(&v[i]));
        i = i + 1;
    }
    proof {
        assert(out.deep_view() =~= v.deep_view());
    }
    out
}

impl Clone for Word {
    fn clone(&self) -> (r: Self)
        ensures
            r@ == self@,
    {
        let r = Word {
            original: self.original.clone(),
            translation: clone_slots(&self.translation),
        };
        proof {
            assert(r@ == self@);
        }
        r
    }
}

/// A parsed answer: one entry per slot, each a sorted list of the submitted
/// spelling variants.
pub struct Answer(Vec<Vec<String>>);

impl View for Answer {
    type V = Seq<Seq<Seq<char>>>;

    closed spec fn view(&self) -> Seq<Seq<Seq<char>>> {
        self.0.deep_view()
    }
}

/// One answer token: trimmed, split on '/', empty variants dropped, and the
/// rest normalized and sorted.
pub open spec fn answer_token_spec(tok: Seq<char>) -> Seq<Seq<char>> {
    canon_slot(nonempty_parts(split_spec(trim_spec(tok), '/')))
}

/// What an answer text parses to: trimmed, split on single spaces, empty
/// tokens dropped, and each token parsed into a slot.
pub open spec fn answer_spec(raw: Seq<char>) -> Seq<Seq<Seq<char>>> {
    nonempty_parts(split_spec(trim_spec(raw), ' ')).map_values(
        |tok: Seq<char>| answer_token_spec(tok),
    )
}

impl Answer {
    pub fn from_answer_text(answer: &str) -> (r: Self)
        ensures
            r@ == answer_spec(answer@),
    {
        let trimmed = trim(answer);
        let raw_tokens = split_char(trimmed, ' ');
        let tokens = keep_nonempty(&raw_tokens);
        let ghost toks = nonempty_parts(split_spec(trim_spec(answer@), ' '));
        let mut items: Vec<Vec<String>> = Vec::new();
        let mut i: usize = 0;
        while i < tokens.len()
            invariant
                i <= tokens@.len(),
                tokens.deep_view() == toks,
                items@.len() == i,
                forall|k: int|
                    0 <= k < i ==> items.deep_view()[k] == answer_token_spec(#[trigger] toks[k]),
            decreases tokens@.len() - i,
        {
            let tok_trimmed = trim(tokens[i].as_str());
            let raw_vars = split_char(tok_trimmed, '/');
            let vars = keep_nonempty(&raw_vars);
            let slot = canonicalize_slot(&vars);
            proof {
                assert(tokens@[i as int]@ == toks[i as int]);
                assert(slot.deep_view() == answer_token_spec(toks[i as int]));
            }
            items.push(slot);
            i = i + 1;
        }
        let r = Answer(items);
        proof {
            assert(r@ =~= answer_spec(answer@));
        }
        r
    }

    pub fn get_items(&self) -> (r: &[Vec<String>])
        ensures
            r.deep_view() == self@,
    {
        self.0.as_slice()
    }
}

impl Clone for Answer {
    fn clone(&self) -> (r: Self)
        ensures
            r@ == self@,
    {
        Answer(clone_slots(&self.0))
    }
}

/// The mathematical value of a trainer: the words still to master, in drill
/// order, and the fixed size of the original word list.
pub ghost struct TrainerV {
    pub words: Seq<WordV>,
    pub words_count: nat,
}

/// The drill state: the remaining words in order, and the count the drill
/// started with. Answering correctly drops the current word; answering
/// incorrectly moves it to the end of the deck.
pub struct Trainer {
    words: Vec<Word>,
    words_count: usize,
}

/// The words of a sequence, as their mathematical values.
pub open spec fn words_view(ws: Seq<Word>) -> Seq<WordV> {
    ws.map_values(|w: Word| w@)
}

impl View for Trainer {
    type V = TrainerV;

    closed spec fn view(&self) -> TrainerV {
        TrainerV { words: words_view(self.words@), words_count: self.words_count as nat }
    }
}

/// Relies on rand's `SliceRandom::shuffle` with `rand::thread_rng`: it
/// permutes the elements of the slice in place, so the result holds exactly
/// the same words, possibly in another order.
#[verifier::external_body]
fn shuffled(words: Vec<Word>) -> (r: Vec<Word>)
    ensures
        r@.len() == words@.len(),
        words_view(r@).to_multiset() == words_view(words@).to_multiset(),
{
    let mut words = words;
    words.shuffle(&mut rand::thread_rng());
    words
}

/// Clones a list of words; the copy reads the same, word for word.
fn clone_words(words: &[Word]) -> (r: Vec<Word>)
    ensures
        r@.len() == words@.len(),
        words_view(r@) == words_view(words@),
{
    let mut out: Vec<Word> = Vec::new();
    let mut i: usize = 0;
    while i < words.len()
        invariant
            i <= words@.len(),
            out@.len() == i,
            forall|k: int| 0 <= k < i ==> words_view(out@)[k] == #[trigger] words_view(words@)[k],
        decreases words@.len() - i,
    {
        out.push(words[i].clone());
        i = i + 1;
    }
    proof {
        assert(words_view(out@) =~= words_view(words@));
    }
    out
}

/// Whether the answer is judged correct against the trainer's current word:
/// there must be a current word, and the answer must equal its translation,
/// slot for slot. An answer with a different number of slots, or with a
/// variant set that is not exactly the accepted one, is incorrect; so is any
/// answer when no words remain.
pub open spec fn is_correct_spec(t: TrainerV, answer: Seq<Seq<Seq<char>>>) -> bool {
    t.words.len() > 0 && answer == t.words[0].translation
}

/// The remaining words after the current word is mastered: the head is
/// dropped; an empty deck stays empty.
pub open spec fn drop_head_words(words: Seq<WordV>) -> Seq<WordV> {
    if words.len() == 0 {
        words
    } else {
        words.drop_first()
    }
}

/// The remaining words after a wrong answer: the head moves to the end, the
/// others keep their relative order; an empty deck stays empty.
pub open spec fn rotate_words(words: Seq<WordV>) -> Seq<WordV> {
    if words.len() == 0 {
        words
    } else {
        words.drop_first().push(words[0])
    }
}

/// The remaining words after one judged answer is resolved.
pub open spec fn next_words(words: Seq<WordV>, correct: bool) -> Seq<WordV> {
    if correct {
        drop_head_words(words)
    } else {
        rotate_words(words)
    }
}

/// Compares one answer slot with one translation slot, as lists of strings.
fn slot_eq(a: &Vec<String>, b: &Vec<String>) -> (r: bool)
    ensures
        r == (a.deep_view() == b.deep_view()),
{
    if a.len() != b.len() {
        proof {
            assert(a.deep_view().len() == a@.len());
            assert(b.deep_view().len() == b@.len());
        }
        return false;
    }
    let mut i: usize = 0;
    while i < a.len()
        invariant
            i <= a@.len(),
            a@.len() == b@.len(),
            forall|k: int| 0 <= k < i ==> a.deep_view()[k] == #[trigger] b.deep_view()[k],
        decreases a@.len() - i,
    {
        if !(a[i] == b[i]) {
            proof {
                assert(a.deep_view()[i as int] != b.deep_view()[i as int]);
            }
            return false;
        }
        i = i + 1;
    }
    proof {
        assert(a.deep_view() =~= b.deep_view());
    }
    true
}

impl Trainer {
    #[verifier::type_invariant]
    spec fn wf(self) -> bool {
        self.words@.len() <= self.words_count
    }

    /// Starts a drill over the given words, in a freshly shuffled order.
    pub fn new(words: &[Word]) -> (r: Self)
        ensures
            r@.words_count == words@.len(),
            r@.words.len() == words@.len(),
            r@.words.to_multiset() == words_view(words@).to_multiset(),
    {
        let words_count = words.len();
        let owned = clone_words(words);
        let shuffled_words = shuffled(owned);
        Trainer { words: shuffled_words, words_count }
    }

    /// Starts a drill over the given words, keeping their order. The usual
    /// constructor shuffles; this one lets a caller fix the sequence of the
    /// drill.
    pub fn from_ordered(words: &[Word]) -> (r: Self)
        ensures
            r@.words_count == words@.len(),
            r@.words == words_view(words@),
    {
        let words_count = words.len();
        let owned = clone_words(words);
        Trainer { words: owned, words_count }
    }

    /// Judges an answer against the current word. The verdict is bundled with
    /// a snapshot of this trainer; resolving it yields the next state. With
    /// no words left the verdict is always "not correct".
    pub fn answer(&self, answer: &Answer) -> (r: AnswerResult)
        ensures
            r@.trainer == self@,
            r@.correct == is_correct_spec(self@, answer@),
    {
        proof {
            use_type_invariant(self);
        }
        let correct = self.is_correct(answer);
        AnswerResult { trainer: self.clone(), correct }
    }

    /// The word to drill now: the head of the remaining words, or nothing
    /// when the drill is complete.
    pub fn get_current_word(&self) -> (r: Option<&Word>)
        ensures
            match r {
                Some(w) => self@.words.len() > 0 && w@ == self@.words[0],
                None => self@.words.len() == 0,
            },
    {
        if self.words.len() == 0 {
            None
        } else {
            Some(&self.words[0])
        }
    }

    /// The size of the original word list; it never changes.
    pub fn get_words_count(&self) -> (r: usize)
        ensures
            r == self@.words_count,
    {
        self.words_count
    }

    /// How many words have been mastered so far.
    pub fn get_correct_answers_count(&self) -> (r: usize)
        ensures
            r + self@.words.len() == self@.words_count,
    {
        proof {
            use_type_invariant(self);
        }
        self.words_count - self.words.len()
    }

    fn is_correct(&self, answer: &Answer) -> (r: bool)
        ensures
            r == is_correct_spec(self@, answer@),
    {
        if self.words.len() == 0 {
            return false;
        }
        let word = &self.words[0];
        proof {
            assert(word@ == self@.words[0]);
        }
        let items = &answer.0;
        let slots = &word.translation;
        if items.len() != slots.len() {
            proof {
                assert(answer@.len() == items@.len());
                assert(word@.translation.len() == slots@.len());
            }
            return false;
        }
        let mut i: usize = 0;
        while i < items.len()
            invariant
                i <= items@.len(),
                items@.len() == slots@.len(),
                items.deep_view() == answer@,
                slots.deep_view() == self@.words[0].translation,
                forall|k: int|
                    0 <= k < i ==> items.deep_view()[k] == #[trigger] slots.deep_view()[k],
                self@.words.len() > 0,
            decreases items@.len() - i,
        {
            if !slot_eq(&items[i], &slots[i]) {
                proof {
                    assert(answer@[i as int] != self@.words[0].translation[i as int]);
                }
                return false;
            }
            i = i + 1;
        }
        proof {
            assert(answer@ =~= self@.words[0].translation);
        }
        true
    }

    fn remove_first_word(&self) -> (r: Trainer)
        ensures
            r@.words_count == self@.words_count,
            r@.words == drop_head_words(self@.words),
    {
        proof {
            use_type_invariant(self);
        }
        let mut words = clone_words(self.words.as_slice());
        if words.len() > 0 {
            let ghost before = words@;
            let _ = words.remove(0);
            proof {
                assert(words@ =~= before.drop_first());
                assert(words_view(words@) =~= words_view(before).drop_first());
            }
        }
        let r = Trainer { words, words_count: self.words_count };
        proof {
            assert(r@.words =~= drop_head_words(self@.words));
        }
        r
    }

    fn move_first_word_to_end(&self) -> (r: Trainer)
        ensures
            r@.words_count == self@.words_count,
            r@.words == rotate_words(self@.words),
    {
        proof {
            use_type_invariant(self);
        }
        let mut words = clone_words(self.words.as_slice());
        if words.len() > 0 {
            let ghost before = words@;
            let first = words.remove(0);
            words.push(first);
            proof {
                assert(words@ =~= before.drop_first().push(before[0]));
                assert(words_view(words@) =~= words_view(before).drop_first().push(
                    words_view(before)[0],
                ));
            }
        }
        let r = Trainer { words, words_count: self.words_count };
        proof {
            assert(r@.words =~= rotate_words(self@.words));
        }
        r
    }
}

impl Clone for Trainer {
    fn clone(&self) -> (r: Self)
        ensures
            r@ == self@,
    {
        proof {
            use_type_invariant(self);
        }
        let r = Trainer {
            words: clone_words(self.words.as_slice()),
            words_count: self.words_count,
        };
        proof {
            assert(r@ == self@);
        }
        r
    }
}

/// The mathematical value of a judged answer: the trainer as it stood when
/// the answer was judged, and the verdict.
pub ghost struct AnswerResultV {
    pub trainer: TrainerV,
    pub correct: bool,
}

/// A judged answer. It keeps the trainer state the judgment was made
/// against, and resolves to the next state: on a correct answer the current
/// word is dropped, otherwise it moves to the end of the deck.
pub struct AnswerResult {
    trainer: Trainer,
    correct: bool,
}

impl View for AnswerResult {
    type V = AnswerResultV;

    closed spec fn view(&self) -> AnswerResultV {
        AnswerResultV { trainer: self.trainer@, correct: self.correct }
    }
}

impl AnswerResult {
    #[verifier::type_invariant]
    spec fn wf(self) -> bool {
        self.correct ==> self.trainer.words@.len() > 0
    }

    /// The trainer as it stood when the answer was judged.
    pub fn get_trainer(&self) -> (r: &Trainer)
        ensures
            r@ == self@.trainer,
    {
        &self.trainer
    }

    pub fn is_correct(&self) -> (r: bool)
        ensures
            r == self@.correct,
    {
        self.correct
    }

    /// Resolves the judgment into the next trainer state. On an empty deck
    /// the verdict is never "correct", and the empty trainer comes back
    /// unchanged.
    pub fn next(&self) -> (r: Trainer)
        ensures
            r@.words_count == self@.trainer.words_count,
            r@.words == next_words(self@.trainer.words, self@.correct),
    {
        proof {
            use_type_invariant(self);
        }
        if self.correct {
            self.trainer.remove_first_word()
        } else {
            self.trainer.move_first_word_to_end()
        }
    }
}

impl Clone for AnswerResult {
    fn clone(&self) -> (r: Self)
        ensures
            r@ == self@,
    {
        proof {
            use_type_invariant(self);
        }
        let trainer = self.trainer.clone();
        proof {
            assert(trainer.words@.len() == words_view(trainer.words@).len());
            assert(self.trainer.words@.len() == words_view(self.trainer.words@).len());
        }
        AnswerResult { trainer, correct: self.correct }
    }
}

/// The parts joined with the separator between each pair.
pub open spec fn join_spec(parts: Seq<Seq<char>>, sep: char) -> Seq<char>
    decreases parts.len(),
{
    if parts.len() == 0 {
        Seq::empty()
    } else if parts.len() == 1 {
        parts[0]
    } else {
        parts[0] + seq![sep] + join_spec(parts.drop_first(), sep)
    }
}

proof fn lemma_join_push(parts: Seq<Seq<char>>, x: Seq<char>, sep: char)
    ensures
        join_spec(parts.push(x), sep) == if parts.len() == 0 {
            x
        } else {
            join_spec(parts, sep) + seq![sep] + x
        },
    decreases parts.len(),
{
    if parts.len() == 0 {
        assert(parts.push(x)[0] == x);
        assert(join_spec(parts.push(x), sep) == x);
    } else {
        assert(parts.push(x).drop_first() =~= parts.drop_first().push(x));
        lemma_join_push(parts.drop_first(), x, sep);
        if parts.len() == 1 {
            assert(join_spec(parts.push(x), sep) =~= parts[0] + seq![sep] + x);
            assert(join_spec(parts, sep) == parts[0]);
        } else {
            assert(join_spec(parts.push(x), sep) =~= parts[0] + seq![sep] + (join_spec(
                parts.drop_first(),
                sep,
            ) + seq![sep] + x));
            assert(parts[0] + seq![sep] + (join_spec(parts.drop_first(), sep) + seq![sep] + x)
                =~= (parts[0] + seq![sep] + join_spec(parts.drop_first(), sep)) + seq![sep] + x);
        }
    }
}

/// Joins the parts, putting the separator between each pair.
fn join_parts(parts: &Vec<String>, sep_str: &str, Ghost(sep): Ghost<char>) -> (r: String)
    requires
        sep_str@ == seq![sep],
    ensures
        r@ == join_spec(parts.deep_view(), sep),
{
    let ghost dv = parts.deep_view();
    let mut out = String::new();
    proof {
        assert(dv.take(0) =~= Seq::<Seq<char>>::empty());
    }
    let mut i: usize = 0;
    while i < parts.len()
        invariant
            i <= parts@.len(),
            dv == parts.deep_view(),
            sep_str@ == seq![sep],
            out@ == join_spec(dv.take(i as int), sep),
        decreases parts@.len() - i,
    {
        if i > 0 {
            out.append(sep_str);
        }
        out.append(parts[i].as_str());
        proof {
            assert(parts@[i as int]@ == dv[i as int]);
            assert(dv.take(i + 1) =~= dv.take(i as int).push(dv[i as int]));
            lemma_join_push(dv.take(i as int), dv[i as int], sep);
            if i == 0 {
                assert(dv.take(0) =~= Seq::<Seq<char>>::empty());
                assert(join_spec(dv.take(0), sep) == Seq::<char>::empty());
                assert(out@ =~= dv[0]);
            } else {
                assert(out@ =~= join_spec(dv.take(i as int), sep) + seq![sep] + dv[i as int]);
                assert(join_spec(dv.take(i as int).push(dv[i as int]), sep) == join_spec(
                    dv.take(i as int),
                    sep,
                ) + seq![sep] + dv[i as int]);
            }
            assert(out@ =~= join_spec(dv.take(i + 1), sep));
        }
        i = i + 1;
    }
    proof {
        assert(dv.take(parts@.len() as int) =~= dv);
    }
    out
}

/// How a translation reads: the variants of each slot joined with '/', the
/// slots joined with single spaces.
pub open spec fn format_translation_spec(translation: Seq<Seq<Seq<char>>>) -> Seq<char> {
    join_spec(translation.map_values(|slot: Seq<Seq<char>>| join_spec(slot, '/')), ' ')
}

/// Renders a translation for display.
pub fn format_traslation(translation: &[Vec<String>]) -> (r: String)
    ensures
        r@ == format_translation_spec(translation.deep_view()),
{
    let ghost dv = translation.deep_view();
    let mut slot_texts: Vec<String> = Vec::new();
    let mut i: usize = 0;
    while i < translation.len()
        invariant
            i <= translation@.len(),
            dv == translation.deep_view(),
            slot_texts@.len() == i,
            forall|k: int|
                0 <= k < i ==> slot_texts.deep_view()[k] == join_spec(#[trigger] dv[k], '/'),
        decreases translation@.len() - i,
    {
        let slash = "/";
        proof {
            reveal_strlit("/");
            assert(slash@ =~= seq!['/']);
            assert(translation@[i as int].deep_view() == dv[i as int]);
        }
        let text = join_parts(&translation[i], slash, Ghost('/'));
        slot_texts.push(text);
        i = i + 1;
    }
    let space = " ";
    proof {
        reveal_strlit(" ");
        assert(space@ =~= seq![' ']);
    }
    let r = join_parts(&slot_texts, space, Ghost(' '));
    proof {
        assert(slot_texts.deep_view() =~= dv.map_values(
            |slot: Seq<Seq<char>>| join_spec(slot, '/'),
        ));
    }
    r
}

} // verus!
