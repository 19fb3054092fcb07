//! Parsing the line-oriented word-file format: each non-blank line is
//! `ORIGINAL:TRANSLATION`, where the translation is space-separated slots and
//! each slot is a '/'-separated list of variants.

use vstd::prelude::*;
use vstd::string::*;
use crate::domain::{word_new_spec, words_view, Trainer, Word, WordV};
use crate::text::{split_char, split_spec, trim, trim_spec};

verus! {

/// Why a word list could not be loaded: the file dialog was dismissed, the
/// file could not be read, or a line is missing the ':' separator.
#[derive(Debug)]
pub enum LoadTrainerError {
    DialogClosed,
    IoError(std::io::ErrorKind),
    ParseError,
}

/// Declares std::io::ErrorKind so that `LoadTrainerError::IoError` can carry
/// it; the library only passes the value through, opaquely.
#[verifier::external_type_specification]
#[verifier::external_body]
pub struct ExErrorKind(std::io::ErrorKind);

impl Clone for LoadTrainerError {
    fn clone(&self) -> (r: Self)
        ensures
            r == *self,
    {
        match self {
            LoadTrainerError::DialogClosed => LoadTrainerError::DialogClosed,
            LoadTrainerError::IoError(kind) => LoadTrainerError::IoError(*kind),
            LoadTrainerError::ParseError => LoadTrainerError::ParseError,
        }
    }
}

pub open spec fn trim_fn() -> spec_fn(Seq<char>) -> Seq<char> {
    |v: Seq<char>| trim_spec(v)
}

pub open spec fn raw_slot_fn() -> spec_fn(Seq<char>) -> Seq<Seq<char>> {
    |tok: Seq<char>| split_spec(tok, '/').map_values(trim_fn())
}

/// The raw translation slots of a translation text: trimmed, split on single
/// spaces into slots, each slot split on '/' into variants, each variant
/// trimmed. Empty slots and variants are kept; `Word::new` normalizes them.
pub open spec fn raw_slots_spec(tr: Seq<char>) -> Seq<Seq<Seq<char>>> {
    split_spec(trim_spec(tr), ' ').map_values(raw_slot_fn())
}

/// Whether a line can be parsed: after trimming it must hold a ':'.
pub open spec fn line_has_separator(line: Seq<char>) -> bool {
    split_spec(trim_spec(line), ':').len() >= 2
}

/// The word a well-formed line parses to.
pub open spec fn parsed_line_spec(line: Seq<char>) -> WordV {
    word_new_spec(
        trim_spec(split_spec(trim_spec(line), ':')[0]),
        raw_slots_spec(split_spec(trim_spec(line), ':')[1]),
    )
}

/// Parses one line of the word file. The text before the first ':' is the
/// original, the text between the first and a possible second ':' is the
/// translation; anything after a second ':' is ignored. A line without ':'
/// is rejected with `ParseError`.
pub fn parse_line(line: &str) -> (r: Result<Word, LoadTrainerError>)
    ensures
        r is Ok <==> line_has_separator(line@),
        r matches Ok(w) ==> w@ == parsed_line_spec(line@),
        r matches Err(e) ==> e is ParseError,
{
    let trimmed = trim(line);
    let parts = split_char(trimmed, ':');
    if parts.len() < 2 {
        return Err(LoadTrainerError::ParseError);
    }
    let original = trim(parts[0].as_str());
    let tr = trim(parts[1].as_str());
    let ghost p1 = split_spec(trim_spec(line@), ':')[1];
    let ghost rs = raw_slots_spec(p1);
    let raw_tokens = split_char(tr, ' ');
    proof {
        assert(parts@[1]@ == p1);
        assert(raw_tokens.deep_view() == split_spec(trim_spec(p1), ' '));
    }
    let mut translation: Vec<Vec<String>> = Vec::new();
    let mut i: usize = 0;
    while i < raw_tokens.len()
        invariant
            i <= raw_tokens@.len(),
            raw_tokens.deep_view() == split_spec(trim_spec(p1), ' '),
            rs == raw_slots_spec(p1),
            translation@.len() == i,
            forall|k: int|
                0 <= k < i ==> translation@[k].deep_view() == #[trigger] rs[k],
        decreases raw_tokens@.len() - i,
    {
        let ghost tok = raw_tokens.deep_view()[i as int];
        let vars = split_char(raw_tokens[i].as_str(), '/');
        proof {
            assert(raw_tokens@[i as int]@ == tok);
            assert(vars.deep_view() == split_spec(tok, '/'));
        }
        let mut slot: Vec<String> = Vec::new();
        let mut j: usize = 0;
        while j < vars.len()
            invariant
                j <= vars@.len(),
                vars.deep_view() == split_spec(tok, '/'),
                slot@.len() == j,
                forall|k: int|
                    0 <= k < j ==> slot@[k]@ == trim_spec(#[trigger] vars.deep_view()[k]),
            decreases vars@.len() - j,
        {
            let v = trim(vars[j].as_str());
            proof {
                assert(vars@[j as int]@ == vars.deep_view()[j as int]);
            }
            slot.push(v.to_owned());
            j = j + 1;
        }
        proof {
            assert(rs[i as int] == raw_slot_fn()(tok));
            assert(rs[i as int] == split_spec(tok, '/').map_values(trim_fn()));
            assert(slot.deep_view() =~= rs[i as int]);
        }
        translation.push(slot);
        i = i + 1;
    }
    let w = Word::new(original, translation.as_slice());
    proof {
        assert(crate::domain::slots_view(translation@) =~= rs);
    }
    Ok(w)
}


/// The non-blank lines among a sequence of lines, in order: a line is blank
/// when nothing but whitespace is on it.
pub open spec fn nonblank_lines(lines: Seq<Seq<char>>) -> Seq<Seq<char>>
    decreases lines.len(),
{
    if lines.len() == 0 {
        Seq::empty()
    } else if trim_spec(lines.first()).len() > 0 {
        seq![lines.first()] + nonblank_lines(lines.drop_first())
    } else {
        nonblank_lines(lines.drop_first())
    }
}

pub proof fn lemma_nonblank_lines_add(a: Seq<Seq<char>>, b: Seq<Seq<char>>)
    ensures
        nonblank_lines(a + b) == nonblank_lines(a) + nonblank_lines(b),
    decreases a.len(),
{
    if a.len() == 0 {
        assert(a + b =~= b);
        assert(nonblank_lines(a) + nonblank_lines(b) =~= nonblank_lines(b));
    } else {
        assert((a + b).first() == a.first());
        assert((a + b).drop_first() =~= a.drop_first() + b);
        lemma_nonblank_lines_add(a.drop_first(), b);
        if trim_spec(a.first()).len() > 0 {
            assert(seq![a.first()] + (nonblank_lines(a.drop_first()) + nonblank_lines(b))
                =~= (seq![a.first()] + nonblank_lines(a.drop_first())) + nonblank_lines(b));
        }
    }
}

/// Builds a trainer from the whole text of a word file: one word per
/// non-blank line, the deck freshly shuffled. The file is rejected with
/// `ParseError` as soon as one non-blank line has no ':' separator.
pub fn trainer_from_text(text: &str) -> (r: Result<Trainer, LoadTrainerError>)
    ensures
        ({
            let ls = nonblank_lines(split_spec(text@, '\n'));
            &&& (r is Ok <==> (forall|k: int|
                0 <= k < ls.len() ==> line_has_separator(#[trigger] ls[k])))
            &&& (r matches Ok(t) ==> {
                &&& t@.words_count == ls.len()
                &&& t@.words.len() == ls.len()
                &&& t@.words.to_multiset() == ls.map_values(
                    |l: Seq<char>| parsed_line_spec(l),
                ).to_multiset()
            })
            &&& (r matches Err(e) ==> e is ParseError)
        }),
{
    let ghost ls = nonblank_lines(split_spec(text@, '\n'));
    let lines = split_char(text, '\n');
    let mut words: Vec<Word> = Vec::new();
    proof {
        assert(lines.deep_view().take(0) =~= Seq::<Seq<char>>::empty());
    }
    let mut i: usize = 0;
    while i < lines.len()
        invariant
            i <= lines@.len(),
            lines.deep_view() == split_spec(text@, '\n'),
            ls == nonblank_lines(lines.deep_view()),
            words@.len() == nonblank_lines(lines.deep_view().take(i as int)).len(),
            forall|k: int|
                0 <= k < words@.len() ==> line_has_separator(
                    #[trigger] nonblank_lines(lines.deep_view().take(i as int))[k],
                ),
            forall|k: int|
                0 <= k < words@.len() ==> words_view(words@)[k] == parsed_line_spec(
                    #[trigger] nonblank_lines(lines.deep_view().take(i as int))[k],
                ),
        decreases lines@.len() - i,
    {
        let ghost dv = lines.deep_view();
        let ghost done = nonblank_lines(dv.take(i as int));
        proof {
            reveal_with_fuel(nonblank_lines, 3);
            assert(dv[i as int] == lines@[i as int]@);
            assert(dv.take(i + 1) =~= dv.take(i as int) + seq![dv[i as int]]);
            lemma_nonblank_lines_add(dv.take(i as int), seq![dv[i as int]]);
            assert(seq![dv[i as int]].drop_first() =~= Seq::<Seq<char>>::empty());
        }
        let line_trimmed = trim(lines[i].as_str());
        if !line_trimmed.is_empty() {
            proof {
                assert(nonblank_lines(seq![dv[i as int]]) =~= seq![dv[i as int]]);
                assert(nonblank_lines(dv.take(i + 1)) =~= done.push(dv[i as int]));
            }
            match parse_line(lines[i].as_str()) {
                Ok(word) => {
                    words.push(word);
                    proof {
                        assert(words_view(words@)[done.len() as int] == parsed_line_spec(
                            dv[i as int],
                        ));
                    }
                },
                Err(e) => {
                    proof {
                        lemma_nonblank_lines_add(dv.take(i + 1), dv.skip(i + 1));
                        assert(dv.take(i + 1) + dv.skip(i + 1) =~= dv);
                        assert(ls[done.len() as int] == dv[i as int]);
                        assert(!line_has_separator(ls[done.len() as int]));
                    }
                    return Err(e);
                },
            }
        } else {
            proof {
                assert(nonblank_lines(seq![dv[i as int]]) =~= Seq::<Seq<char>>::empty());
                assert(nonblank_lines(dv.take(i + 1)) =~= done);
            }
        }
        i = i + 1;
    }
    proof {
        assert(lines.deep_view().take(lines@.len() as int) =~= lines.deep_view());
        assert(words_view(words@) =~= ls.map_values(|l: Seq<char>| parsed_line_spec(l)));
    }
    let trainer = Trainer::new(words.as_slice());
    Ok(trainer)
}

} // verus!
